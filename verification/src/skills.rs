//! Agent skills: a directory holding `SKILL.md` (a `---` frontmatter of
//! `key: value` fields over a markdown body). This module holds the parsing,
//! validation, diagnostics, the `/skill:` expansion, the catalog block, and
//! the registry rule (project beats system; within a scope the first wins).

use crate::text::{
    lemma_text_lt_irrefl, lemma_text_lt_total, lemma_text_lt_trans, text_lt, text_lt_exec,
    append_chars, append_str, chars_eq, chars_of, ends_with_exec, find, find_from_exec,
    is_blank, is_ws, lead_ws, lines_chars, lines_of, split_once, split_once_chars, starts_with,
    starts_with_exec, string_of, strip_prefix, trim, trim_chars, trim_start,
};
use vstd::prelude::*;

verus! {

/// One discovered skill.
#[derive(Debug, Clone, PartialEq, Eq)]
pub struct Skill {
    pub name: String,
    pub description: String,
    /// Path of the `SKILL.md` (the skill directory is its parent).
    pub location: String,
    /// `false` for `disable-model-invocation: true`: the skill is left out
    /// of the catalog.
    pub model_invocation: bool,
}

pub struct SkillView {
    pub name: Seq<char>,
    pub description: Seq<char>,
    pub location: Seq<char>,
    pub model_invocation: bool,
}

impl View for Skill {
    type V = SkillView;

    open spec fn view(&self) -> SkillView {
        SkillView {
            name: self.name@,
            description: self.description@,
            location: self.location@,
            model_invocation: self.model_invocation,
        }
    }
}

pub open spec fn skill_views(s: Seq<Skill>) -> Seq<SkillView> {
    s.map_values(|k: Skill| k@)
}

/// Everything after the frontmatter's opening `---` line, if it has one.
pub open spec fn after_open(raw: Seq<char>) -> Option<Seq<char>> {
    match strip_prefix(raw, "---\n"@) {
        Some(r) => Some(r),
        None => strip_prefix(raw, "---\r\n"@),
    }
}

/// The body: what follows the closing `---`, trimmed (the whole text when
/// there is no frontmatter, the rest when it is never closed).
pub open spec fn body_of(raw: Seq<char>) -> Seq<char> {
    match after_open(raw) {
        Some(r) => match split_once(r, "\n---"@) {
            Some((_, b)) => trim(b),
            None => trim(r),
        },
        None => trim(raw),
    }
}

fn after_open_exec(v: &[char]) -> (r: Option<Vec<char>>)
    ensures
        match (r, after_open(v@)) {
            (Some(x), Some(y)) => x@ == y,
            (None, None) => true,
            _ => false,
        },
{
    let n = v.len();
    let lf = chars_of("---\n");
    let crlf = chars_of("---\r\n");
    proof {
        reveal_strlit("---\n");
        reveal_strlit("---\r\n");
    }
    if starts_with_exec(v, &lf) {
        assert(v@.subrange(4, n as int) =~= v@.skip(4));
        Some(crate::text::slice_vec(v, 4, n))
    } else if starts_with_exec(v, &crlf) {
        assert(v@.subrange(5, n as int) =~= v@.skip(5));
        Some(crate::text::slice_vec(v, 5, n))
    } else {
        None
    }
}

/// The body of a `SKILL.md`: everything after the closing `---`, trimmed.
pub fn body(raw: &str) -> (r: String)
    ensures
        r@ == body_of(raw@),
{
    let v = chars_of(raw);
    let close = chars_of("\n---");
    let out = match after_open_exec(&v) {
        Some(rest) => match split_once_chars(&rest, &close) {
            Some((_, b)) => trim_chars(&b),
            None => trim_chars(&rest),
        },
        None => trim_chars(&v),
    };
    string_of(&out)
}

/// The `/skill:` expansion: the body under a header naming the skill
/// directory; non-blank `args` (trimmed) ride a final line.
pub open spec fn expansion(name: Seq<char>, body: Seq<char>, dir: Seq<char>, args: Option<Seq<char>>) -> Seq<char> {
    let head = "Skill `"@ + name
        + "` \u{2014} follow the instructions below. The skill directory is "@ + dir
        + "; resolve relative paths in the instructions against it.\n\n"@ + body;
    match args {
        Some(a) => if trim(a).len() > 0 {
            head + "\n\nUser request: "@ + trim(a)
        } else {
            head
        },
        None => head,
    }
}

/// The text a `/skill:<name>` invocation records as the user's entry.
pub fn expand(name: &str, body: &str, dir: &str, args: Option<&str>) -> (r: String)
    ensures
        r@ == expansion(name@, body@, dir@, match args { Some(a) => Some(a@), None => None }),
{
    let mut out: Vec<char> = Vec::new();
    append_str(&mut out, "Skill `");
    append_str(&mut out, name);
    append_str(&mut out, "` \u{2014} follow the instructions below. The skill directory is ");
    append_str(&mut out, dir);
    append_str(&mut out, "; resolve relative paths in the instructions against it.\n\n");
    append_str(&mut out, body);
    match args {
        Some(a) => {
            let t = trim_chars(&chars_of(a));
            if t.len() > 0 {
                append_str(&mut out, "\n\nUser request: ");
                append_chars(&mut out, &t);
            }
        },
        None => {},
    }
    string_of(&out)
}

pub open spec fn catalog_intro() -> Seq<char> {
    "The following skills provide specialized instructions for specific tasks.\nWhen a task matches a skill's description, use your file-read tool to load\nthe SKILL.md at the listed location before proceeding.\nWhen a skill references relative paths, resolve them against the skill's\ndirectory (the parent of SKILL.md) and use absolute paths in tool calls.\n\n"@
}

/// One catalog entry.
pub open spec fn catalog_entry(s: SkillView) -> Seq<char> {
    "  <skill>\n    <name>"@ + s.name + "</name>\n    <description>"@ + s.description
        + "</description>\n    <location>"@ + s.location + "</location>\n  </skill>\n"@
}

/// The entries of the model-invocable skills, in order.
pub open spec fn catalog_entries(ss: Seq<SkillView>) -> Seq<char>
    decreases ss.len(),
{
    if ss.len() == 0 {
        Seq::empty()
    } else {
        catalog_entries(ss.drop_last()) + if ss.last().model_invocation {
            catalog_entry(ss.last())
        } else {
            Seq::empty()
        }
    }
}

/// `small` occurs in `big` at some position.
pub open spec fn occurs_in(big: Seq<char>, small: Seq<char>) -> bool {
    exists|a: int| 0 <= a && a + small.len() <= big.len() && #[trigger] big.subrange(a, a + small.len()) == small
}

proof fn lemma_entries_hold(ss: Seq<SkillView>, i: int)
    requires
        0 <= i < ss.len(),
        ss[i].model_invocation,
    ensures
        occurs_in(catalog_entries(ss), catalog_entry(ss[i])),
    decreases ss.len(),
{
    let pre = catalog_entries(ss.drop_last());
    let all = catalog_entries(ss);
    let e = catalog_entry(ss[i]);
    if i < ss.len() - 1 {
        assert(ss.drop_last()[i] == ss[i]);
        lemma_entries_hold(ss.drop_last(), i);
        let a = choose|a: int| 0 <= a && a + e.len() <= pre.len() && #[trigger] pre.subrange(a, a + e.len()) == e;
        assert(all.subrange(a, a + e.len()) =~= pre.subrange(a, a + e.len()));
    } else {
        assert(all.subrange(pre.len() as int, (pre.len() + e.len()) as int) =~= e);
    }
}

/// The catalog lists every model-invocable skill: each one's entry (its
/// name, description and location) stands in the block.
pub proof fn lemma_catalog_lists_every_invocable_skill(ss: Seq<SkillView>, i: int)
    requires
        0 <= i < ss.len(),
        ss[i].model_invocation,
    ensures
        catalog_of(ss) matches Some(c) && occurs_in(c, catalog_entry(ss[i])),
{
    lemma_entries_hold(ss, i);
    let head = catalog_intro() + "<available_skills>\n"@;
    let body = catalog_entries(ss);
    let e = catalog_entry(ss[i]);
    let c = head + body + "</available_skills>"@;
    let a = choose|a: int| 0 <= a && a + e.len() <= body.len() && #[trigger] body.subrange(a, a + e.len()) == e;
    assert(c.subrange(head.len() + a, head.len() + a + e.len()) =~= body.subrange(a, a + e.len()));
    assert(c.subrange(head.len() + a, head.len() + a + e.len()) == e);
}

/// The catalog block, absent when no skill is model-invocable.
pub open spec fn catalog_of(ss: Seq<SkillView>) -> Option<Seq<char>> {
    if exists|i: int| 0 <= i < ss.len() && #[trigger] ss[i].model_invocation {
        Some(catalog_intro() + "<available_skills>\n"@ + catalog_entries(ss) + "</available_skills>"@)
    } else {
        None
    }
}

/// The skills disclosure for the system prompt: the `<available_skills>`
/// block with its file-read instruction; `None` when no model-invocable
/// skill exists.
pub fn catalog(skills: &[Skill]) -> (r: Option<String>)
    ensures
        match (r, catalog_of(skill_views(skills@))) {
            (Some(x), Some(y)) => x@ == y,
            (None, None) => true,
            _ => false,
        },
{
    let ghost ss = skill_views(skills@);
    let mut entries: Vec<char> = Vec::new();
    let mut any = false;
    let mut i: usize = 0;
    while i < skills.len()
        invariant
            i <= skills@.len(),
            ss == skill_views(skills@),
            entries@ == catalog_entries(ss.take(i as int)),
            any == exists|k: int| 0 <= k < i && #[trigger] ss[k].model_invocation,
        decreases skills@.len() - i,
    {
        assert(ss.take(i + 1).drop_last() =~= ss.take(i as int));
        let s = &skills[i];
        assert(ss[i as int] == s@);
        if s.model_invocation {
            any = true;
            append_str(&mut entries, "  <skill>\n    <name>");
            append_str(&mut entries, s.name.as_str());
            append_str(&mut entries, "</name>\n    <description>");
            append_str(&mut entries, s.description.as_str());
            append_str(&mut entries, "</description>\n    <location>");
            append_str(&mut entries, s.location.as_str());
            append_str(&mut entries, "</location>\n  </skill>\n");
        } else {
            assert(entries@ =~= entries@ + Seq::<char>::empty());
        }
        i = i + 1;
    }
    assert(ss.take(skills@.len() as int) =~= ss);
    if !any {
        return None;
    }
    let mut out: Vec<char> = Vec::new();
    append_str(
        &mut out,
        "The following skills provide specialized instructions for specific tasks.\nWhen a task matches a skill's description, use your file-read tool to load\nthe SKILL.md at the listed location before proceeding.\nWhen a skill references relative paths, resolve them against the skill's\ndirectory (the parent of SKILL.md) and use absolute paths in tool calls.\n\n",
    );
    append_str(&mut out, "<available_skills>\n");
    append_chars(&mut out, &entries);
    append_str(&mut out, "</available_skills>");
    Some(string_of(&out))
}

/// A skip diagnostic: the file's path, then the cause.
pub open spec fn skip_text(location: Seq<char>, detail: Seq<char>) -> Seq<char> {
    location + ": "@ + detail + " \u{2014} skipped"@
}

pub fn skip_message(location: &str, detail: &str) -> (r: String)
    ensures
        r@ == skip_text(location@, detail@),
{
    let mut out: Vec<char> = Vec::new();
    append_str(&mut out, location);
    append_str(&mut out, ": ");
    append_str(&mut out, detail);
    append_str(&mut out, " \u{2014} skipped");
    string_of(&out)
}

/// A name violation: the file's path and the offending name; the skill is
/// loaded anyway.
pub open spec fn name_violation_text(location: Seq<char>, name: Seq<char>) -> Seq<char> {
    location + ": name '"@ + name + "' violates [a-z0-9-] (loaded anyway)"@
}

pub fn name_violation_message(location: &str, name: &str) -> (r: String)
    ensures
        r@ == name_violation_text(location@, name@),
{
    let mut out: Vec<char> = Vec::new();
    append_str(&mut out, location);
    append_str(&mut out, ": name '");
    append_str(&mut out, name);
    append_str(&mut out, "' violates [a-z0-9-] (loaded anyway)");
    string_of(&out)
}

/// A description over the 1024-character cap; the skill is loaded anyway.
pub open spec fn description_violation_text(location: Seq<char>) -> Seq<char> {
    location + ": description exceeds 1024 chars (loaded anyway)"@
}

pub fn description_violation_message(location: &str) -> (r: String)
    ensures
        r@ == description_violation_text(location@),
{
    let mut out: Vec<char> = Vec::new();
    append_str(&mut out, location);
    append_str(&mut out, ": description exceeds 1024 chars (loaded anyway)");
    string_of(&out)
}

/// A standard skill name: 1 to 64 characters of `[a-z0-9-]`, no leading,
/// trailing or doubled hyphen.
pub open spec fn valid_name_of(n: Seq<char>) -> bool {
    &&& 1 <= n.len() <= 64
    &&& forall|i: int| 0 <= i < n.len() ==> ('a' <= #[trigger] n[i] <= 'z' || '0' <= n[i] <= '9' || n[i] == '-')
    &&& n[0] != '-'
    &&& n.last() != '-'
    &&& forall|i: int| 0 <= i < n.len() - 1 ==> !(#[trigger] n[i] == '-' && n[i + 1] == '-')
}

pub fn valid_name(n: &str) -> (r: bool)
    ensures
        r == valid_name_of(n@),
{
    let v = chars_of(n);
    let len = v.len();
    if len < 1 || len > 64 {
        return false;
    }
    let mut i: usize = 0;
    while i < len
        invariant
            v@ == n@,
            len == v@.len(),
            1 <= len <= 64,
            i <= len,
            forall|k: int| 0 <= k < i ==> ('a' <= #[trigger] v@[k] <= 'z' || '0' <= v@[k] <= '9' || v@[k] == '-'),
            forall|k: int| 0 <= k < i && k < len - 1 ==> !(#[trigger] v@[k] == '-' && v@[k + 1] == '-'),
        decreases len - i,
    {
        let c = v[i];
        if !(('a' <= c && c <= 'z') || ('0' <= c && c <= '9') || c == '-') {
            assert(!('a' <= v@[i as int] <= 'z' || '0' <= v@[i as int] <= '9' || v@[i as int] == '-'));
            return false;
        }
        if i + 1 < len && c == '-' && v[i + 1] == '-' {
            assert(v@[i as int] == '-' && v@[i + 1] == '-');
            return false;
        }
        i = i + 1;
    }
    v[0] != '-' && v[len - 1] != '-'
}

/// A value without one pair of matching surrounding quotes.
pub open spec fn unquote_of(v: Seq<char>) -> Seq<char> {
    if v.len() >= 2 && ((v[0] == '"' && v.last() == '"') || (v[0] == '\'' && v.last() == '\'')) {
        v.subrange(1, v.len() - 1)
    } else {
        v
    }
}

fn unquote(v: &[char]) -> (r: Vec<char>)
    ensures
        r@ == unquote_of(v@),
{
    let n = v.len();
    if n >= 2 && ((v[0] == '"' && v[n - 1] == '"') || (v[0] == '\'' && v[n - 1] == '\'')) {
        crate::text::slice_vec(v, 1, n - 1)
    } else {
        assert(v@.subrange(0, n as int) =~= v@);
        crate::text::slice_vec(v, 0, n)
    }
}

/// A frontmatter field list, in order; a later key overrides an earlier one.
pub type Fields = Seq<(Seq<char>, Seq<char>)>;

/// The value of the last field named `k`.
pub open spec fn field(fs: Fields, k: Seq<char>) -> Option<Seq<char>>
    decreases fs.len(),
{
    if fs.len() == 0 {
        None
    } else if fs.last().0 == k {
        Some(fs.last().1)
    } else {
        field(fs.drop_last(), k)
    }
}

/// A field line's key and value, unless the line is refused: no colon, or
/// (in the strict pass) an unquoted value that holds a colon.
pub open spec fn field_of(l: Seq<char>, allow_colons: bool) -> Option<(Seq<char>, Seq<char>)> {
    match split_once(l, seq![':']) {
        None => None,
        Some((k, v0)) => {
            let v = trim(v0);
            if !allow_colons && !(v.len() > 0 && (v[0] == '"' || v[0] == '\'')) && find(v, seq![':']) is Some {
                None
            } else {
                Some((trim(k), unquote_of(v)))
            }
        },
    }
}

/// The fields of the lines, or `None` when a line is refused.
pub open spec fn fields_of(lines: Seq<Seq<char>>, allow_colons: bool) -> Option<Fields>
    decreases lines.len(),
{
    if lines.len() == 0 {
        Some(Seq::empty())
    } else {
        match (fields_of(lines.drop_last(), allow_colons), field_of(lines.last(), allow_colons)) {
            (Some(fs), Some(f)) => Some(fs.push(f)),
            _ => None,
        }
    }
}

/// A frontmatter line that carries a field: not blank, not a `#` comment,
/// not indented by a space or tab.
pub open spec fn field_line(l: Seq<char>) -> bool {
    let t = trim_start(l);
    t.len() > 0 && t[0] != '#' && !(l.len() > 0 && (l[0] == ' ' || l[0] == '\t'))
}

/// The field lines, in order.
pub open spec fn field_lines(ls: Seq<Seq<char>>) -> Seq<Seq<char>>
    decreases ls.len(),
{
    if ls.len() == 0 {
        Seq::empty()
    } else if field_line(ls.last()) {
        field_lines(ls.drop_last()).push(ls.last())
    } else {
        field_lines(ls.drop_last())
    }
}

/// The frontmatter's fields: strictly first; a value holding a colon is
/// then retried as a literal. `None` without a closed frontmatter or with
/// a line that has no colon.
pub open spec fn frontmatter(raw: Seq<char>) -> Option<Fields> {
    match after_open(raw) {
        None => None,
        Some(rest) => match split_once(rest, "\n---"@) {
            None => None,
            Some((fm, _)) => {
                let ls = field_lines(lines_of(fm));
                match fields_of(ls, false) {
                    Some(fs) => Some(fs),
                    None => fields_of(ls, true),
                }
            },
        },
    }
}

pub open spec fn pair_views(v: Seq<(Vec<char>, Vec<char>)>) -> Fields {
    v.map_values(|p: (Vec<char>, Vec<char>)| (p.0@, p.1@))
}

fn parse_fields(lines: &Vec<Vec<char>>, allow_colons: bool) -> (r: Option<Vec<(Vec<char>, Vec<char>)>>)
    ensures
        match (r, fields_of(lines@.map_values(|l: Vec<char>| l@), allow_colons)) {
            (Some(x), Some(y)) => pair_views(x@) == y,
            (None, None) => true,
            _ => false,
        },
{
    let ghost ls = lines@.map_values(|l: Vec<char>| l@);
    let colon = vec![':'];
    let mut out: Vec<(Vec<char>, Vec<char>)> = Vec::new();
    let mut i: usize = 0;
    assert(pair_views(out@) =~= Seq::<(Seq<char>, Seq<char>)>::empty());
    while i < lines.len()
        invariant
            i <= lines@.len(),
            ls == lines@.map_values(|l: Vec<char>| l@),
            colon@ == seq![':'],
            fields_of(ls.take(i as int), allow_colons) == Some(pair_views(out@)),
        decreases lines@.len() - i,
    {
        assert(ls.take(i + 1).drop_last() =~= ls.take(i as int));
        let l = &lines[i];
        assert(ls.take(i + 1).last() == l@);
        match split_once_chars(l, &colon) {
            None => {
                proof {
                    lemma_fields_none(ls, i as int, allow_colons);
                }
                return None;
            },
            Some((k, v0)) => {
                let v = trim_chars(&v0);
                let quoted = v.len() > 0 && (v[0] == '"' || v[0] == '\'');
                if !allow_colons && !quoted {
                    let has = find_from_exec(&v, &colon, 0);
                    if has.is_some() {
                        proof {
                            lemma_fields_none(ls, i as int, allow_colons);
                        }
                        return None;
                    }
                }
                let key = trim_chars(&k);
                let val = unquote(&v);
                let ghost before = pair_views(out@);
                out.push((key, val));
                assert(pair_views(out@) =~= before.push((key@, val@)));
            },
        }
        i = i + 1;
    }
    assert(ls.take(lines@.len() as int) =~= ls);
    Some(out)
}

/// A refused line refuses every longer list of lines.
proof fn lemma_fields_none(ls: Seq<Seq<char>>, i: int, allow_colons: bool)
    requires
        0 <= i < ls.len(),
        field_of(ls[i], allow_colons) is None,
    ensures
        fields_of(ls, allow_colons) is None,
    decreases ls.len(),
{
    if i < ls.len() - 1 {
        lemma_fields_none(ls.drop_last(), i, allow_colons);
    }
}

fn frontmatter_fields(raw: &[char]) -> (r: Option<Vec<(Vec<char>, Vec<char>)>>)
    ensures
        match (r, frontmatter(raw@)) {
            (Some(x), Some(y)) => pair_views(x@) == y,
            (None, None) => true,
            _ => false,
        },
{
    let rest = match after_open_exec(raw) {
        None => return None,
        Some(r) => r,
    };
    let close = chars_of("\n---");
    let fm = match split_once_chars(&rest, &close) {
        None => return None,
        Some((a, _)) => a,
    };
    let all = lines_chars(&fm);
    let ghost als = lines_of(fm@);
    let mut kept: Vec<Vec<char>> = Vec::new();
    let mut i: usize = 0;
    while i < all.len()
        invariant
            i <= all@.len() == als.len(),
            forall|k: int| 0 <= k < all@.len() ==> #[trigger] all@[k]@ == als[k],
            kept@.map_values(|l: Vec<char>| l@) == field_lines(als.take(i as int)),
        decreases all@.len() - i,
    {
        assert(als.take(i + 1).drop_last() =~= als.take(i as int));
        let l = &all[i];
        assert(als.take(i + 1).last() == l@);
        let (a, _) = crate::text::trim_bounds(l, 0, l.len());
        assert(l@.subrange(0, l@.len() as int) =~= l@);
        assert(l@.subrange(a as int, l@.len() as int) == trim_start(l@));
        let keep = a < l.len() && l[a] != '#' && !(l.len() > 0 && (l[0] == ' ' || l[0] == '\t'));
        if keep {
            let ghost before = kept@.map_values(|l: Vec<char>| l@);
            kept.push(l.clone());
            assert(kept@.map_values(|l: Vec<char>| l@) =~= before.push(l@));
        }
        i = i + 1;
    }
    assert(als.take(all@.len() as int) =~= als);
    match parse_fields(&kept, false) {
        Some(f) => Some(f),
        None => parse_fields(&kept, true),
    }
}

/// The last value for `key` among the fields.
fn field_get(fs: &Vec<(Vec<char>, Vec<char>)>, key: &str) -> (r: Option<Vec<char>>)
    ensures
        match (r, field(pair_views(fs@), key@)) {
            (Some(x), Some(y)) => x@ == y,
            (None, None) => true,
            _ => false,
        },
{
    let k = chars_of(key);
    let ghost ps = pair_views(fs@);
    let mut i = fs.len();
    assert(ps.take(i as int) =~= ps);
    while i > 0
        invariant
            i <= fs@.len(),
            ps == pair_views(fs@),
            k@ == key@,
            field(ps, key@) == field(ps.take(i as int), key@),
        decreases i,
    {
        assert(ps.take(i as int).drop_last() =~= ps.take(i - 1));
        let ghost last = ps.take(i as int).last();
        assert(last == (fs@[i - 1].0@, fs@[i - 1].1@));
        if chars_eq(&fs[i - 1].0, &k) {
            return Some(fs[i - 1].1.clone());
        }
        i = i - 1;
    }
    None
}

/// What a `SKILL.md` yields: the skill, unless the frontmatter does not
/// parse or lacks a name or a description; and the diagnostics.
pub open spec fn parsed(raw: Seq<char>, location: Seq<char>) -> (Option<SkillView>, Seq<Seq<char>>) {
    match frontmatter(raw) {
        None => (None, seq![skip_text(location, "unparseable frontmatter"@)]),
        Some(fs) => match field(fs, "name"@) {
            Some(name) if name.len() > 0 => {
                let description = match field(fs, "description"@) {
                    Some(d) => d,
                    None => Seq::empty(),
                };
                if description.len() == 0 {
                    (None, seq![skip_text(location, "missing required field 'description'"@)])
                } else {
                    let w1: Seq<Seq<char>> = if valid_name_of(name) {
                        Seq::empty()
                    } else {
                        seq![name_violation_text(location, name)]
                    };
                    let w2: Seq<Seq<char>> = if description.len() > 1024 {
                        seq![description_violation_text(location)]
                    } else {
                        Seq::empty()
                    };
                    (
                        Some(
                            SkillView {
                                name,
                                description,
                                location,
                                model_invocation: field(fs, "disable-model-invocation"@) != Some(
                                    "true"@,
                                ),
                            },
                        ),
                        w1 + w2,
                    )
                }
            },
            _ => (None, seq![skip_text(location, "missing required field 'name'"@)]),
        },
    }
}

/// A parsed skill always has a name and a description, and lives where
/// its file was found.
pub proof fn lemma_parsed_skill_is_named(raw: Seq<char>, location: Seq<char>)
    ensures
        parsed(raw, location).0 matches Some(k) ==> k.name.len() > 0 && k.description.len() > 0 && k.location
            == location,
{
}

/// Only the value `true` of `disable-model-invocation` keeps a parsed
/// skill from the model. With the field absent, or holding any other value
/// (such as `false`), the skill is model-invocable and a catalog of it lists
/// its entry; with `true` it is not, and a catalog of it alone is absent.
pub proof fn lemma_only_true_disables_model_invocation(raw: Seq<char>, location: Seq<char>)
    ensures
        parsed(raw, location).0 matches Some(k) ==> frontmatter(raw) matches Some(fs) && ({
            let flag = field(fs, "disable-model-invocation"@);
            &&& flag == Some("true"@) ==> !k.model_invocation && catalog_of(seq![k]) is None
            &&& flag != Some("true"@) ==> (k.model_invocation && (catalog_of(seq![k]) matches Some(c)
                && occurs_in(c, catalog_entry(k))))
        }),
{
    if let Some(k) = parsed(raw, location).0 {
        if k.model_invocation {
            lemma_catalog_lists_every_invocable_skill(seq![k], 0);
        } else {
            assert(!(exists|i: int| 0 <= i < seq![k].len() && #[trigger] seq![k][i].model_invocation));
        }
    }
}

pub open spec fn opt_skill_view(s: Option<Skill>) -> Option<SkillView> {
    match s {
        Some(k) => Some(k@),
        None => None,
    }
}

pub open spec fn string_views(v: Seq<String>) -> Seq<Seq<char>> {
    v.map_values(|s: String| s@)
}

/// Parse a `SKILL.md` read from `location`: the skill (lenient: a missing
/// name or description, or an unparseable frontmatter, skips it; a bad name
/// or an overlong description only warns) and the diagnostics to report.
pub fn parse(raw: &str, location: &str) -> (r: (Option<Skill>, Vec<String>))
    ensures
        opt_skill_view(r.0) == parsed(raw@, location@).0,
        string_views(r.1@) == parsed(raw@, location@).1,
{
    let v = chars_of(raw);
    let mut notes: Vec<String> = Vec::new();
    let fields = match frontmatter_fields(&v) {
        None => {
            notes.push(skip_message(location, "unparseable frontmatter"));
            assert(string_views(notes@) =~= seq![skip_text(location@, "unparseable frontmatter"@)]);
            return (None, notes);
        },
        Some(f) => f,
    };
    let name = match field_get(&fields, "name") {
        Some(n) if n.len() > 0 => n,
        _ => {
            notes.push(skip_message(location, "missing required field 'name'"));
            assert(string_views(notes@) =~= seq![skip_text(location@, "missing required field 'name'"@)]);
            return (None, notes);
        },
    };
    let description = match field_get(&fields, "description") {
        Some(d) => d,
        None => Vec::new(),
    };
    if description.len() == 0 {
        notes.push(skip_message(location, "missing required field 'description'"));
        assert(string_views(notes@) =~= seq![skip_text(location@, "missing required field 'description'"@)]);
        return (None, notes);
    }
    let name_s = string_of(&name);
    if !valid_name(name_s.as_str()) {
        notes.push(name_violation_message(location, name_s.as_str()));
    }
    let ghost n1 = string_views(notes@);
    if description.len() > 1024 {
        notes.push(description_violation_message(location));
    }
    let flag = field_get(&fields, "disable-model-invocation");
    let t = chars_of("true");
    let disabled = match &flag {
        Some(x) => chars_eq(x, &t),
        None => false,
    };
    let skill = Skill {
        name: name_s,
        description: string_of(&description),
        location: String::from_str(location),
        model_invocation: !disabled,
    };
    proof {
        let p = parsed(raw@, location@);
        assert(string_views(notes@) =~= p.1);
    }
    (Some(skill), notes)
}

/// The diagnostic for a skill that loses to one already registered.
pub open spec fn shadowed_text(name: Seq<char>, loc: Seq<char>, prev: Seq<char>) -> Seq<char> {
    "skill "@ + name + ": "@ + loc + " is shadowed by "@ + prev + " \u{2014} skipped"@
}

/// The diagnostic for a skill that replaces one from a lower scope.
pub open spec fn replaced_text(name: Seq<char>, loc: Seq<char>, prev: Seq<char>) -> Seq<char> {
    "skill "@ + name + ": "@ + loc + " shadows "@ + prev + " \u{2014} replaced"@
}

pub type Registry = Map<Seq<char>, (int, SkillView)>;

/// Registering a skill found in `scope` (project 1 beats system 0): a skill
/// already held from the same or a higher scope stays.
pub open spec fn register(reg: Registry, notes: Seq<Seq<char>>, scope: int, s: SkillView) -> (Registry, Seq<Seq<char>>) {
    if reg.contains_key(s.name) && reg[s.name].0 >= scope {
        (reg, notes.push(shadowed_text(s.name, s.location, reg[s.name].1.location)))
    } else if reg.contains_key(s.name) {
        (reg.insert(s.name, (scope, s)), notes.push(replaced_text(s.name, s.location, reg[s.name].1.location)))
    } else {
        (reg.insert(s.name, (scope, s)), notes)
    }
}

/// The registry after every found skill, in the order found, and the
/// diagnostics.
pub open spec fn registry(found: Seq<(int, SkillView)>) -> (Registry, Seq<Seq<char>>)
    decreases found.len(),
{
    if found.len() == 0 {
        (Map::empty(), Seq::empty())
    } else {
        let (reg, notes) = registry(found.drop_last());
        register(reg, notes, found.last().0, found.last().1)
    }
}

pub open spec fn found_views(found: Seq<(usize, Skill)>) -> Seq<(int, SkillView)> {
    found.map_values(|p: (usize, Skill)| (p.0 as int, p.1@))
}

/// The skills ordered strictly by name, and exactly those of the registry.
pub open spec fn lists_registry(r: Seq<SkillView>, reg: Registry) -> bool {
    &&& forall|i: int, j: int| 0 <= i < j < r.len() ==> text_lt(#[trigger] r[i].name, #[trigger] r[j].name)
    &&& forall|i: int| 0 <= i < r.len() ==> #[trigger] reg.contains_key(r[i].name) && reg[r[i].name].1 == r[i]
    &&& forall|k: Seq<char>| #[trigger] reg.contains_key(k) ==> exists|i: int| 0 <= i < r.len() && r[i].name == k
}

spec fn entry_views(es: Seq<(usize, Skill)>) -> Seq<SkillView> {
    es.map_values(|e: (usize, Skill)| e.1@)
}

/// The entries list the registry, each with its scope.
spec fn entries_hold(es: Seq<(usize, Skill)>, reg: Registry) -> bool {
    &&& lists_registry(entry_views(es), reg)
    &&& forall|q: int| 0 <= q < es.len() ==> (#[trigger] es[q]).0 as int == reg[es[q].1.name@].0
}

fn copy_skill(s: &Skill) -> (r: Skill)
    ensures
        r@ == s@,
{
    Skill {
        name: s.name.clone(),
        description: s.description.clone(),
        location: s.location.clone(),
        model_invocation: s.model_invocation,
    }
}

fn shadowed_message(name: &str, loc: &str, prev: &str) -> (r: String)
    ensures
        r@ == shadowed_text(name@, loc@, prev@),
{
    let mut out: Vec<char> = Vec::new();
    append_str(&mut out, "skill ");
    append_str(&mut out, name);
    append_str(&mut out, ": ");
    append_str(&mut out, loc);
    append_str(&mut out, " is shadowed by ");
    append_str(&mut out, prev);
    append_str(&mut out, " \u{2014} skipped");
    string_of(&out)
}

fn replaced_message(name: &str, loc: &str, prev: &str) -> (r: String)
    ensures
        r@ == replaced_text(name@, loc@, prev@),
{
    let mut out: Vec<char> = Vec::new();
    append_str(&mut out, "skill ");
    append_str(&mut out, name);
    append_str(&mut out, ": ");
    append_str(&mut out, loc);
    append_str(&mut out, " shadows ");
    append_str(&mut out, prev);
    append_str(&mut out, " \u{2014} replaced");
    string_of(&out)
}

/// Registers one skill into the name-ordered entries.
fn register_skill(
    entries: &mut Vec<(usize, Skill)>,
    notes: &mut Vec<String>,
    scope: usize,
    s: &Skill,
    Ghost(reg): Ghost<Registry>,
)
    requires
        entries_hold(old(entries)@, reg),
    ensures
        entries_hold(final(entries)@, register(reg, string_views(old(notes)@), scope as int, s@).0),
        string_views(final(notes)@) == register(reg, string_views(old(notes)@), scope as int, s@).1,
{
    let ghost ns = string_views(notes@);
    let ghost es = entries@;
    let ghost rv = entry_views(es);
    let name = chars_of(s.name.as_str());
    let len = entries.len();
    let mut j: usize = 0;
    while j < len
        invariant
            len == entries@.len(),
            entries@ == es,
            entries_hold(es, reg),
            ns == string_views(notes@),
            ns == string_views(old(notes)@),
            es == old(entries)@,
            rv == entry_views(es),
            name@ == s.name@,
            j <= len,
            forall|q: int| 0 <= q < j ==> text_lt(#[trigger] rv[q].name, s.name@),
        decreases len - j,
    {
        let other = chars_of(entries[j].1.name.as_str());
        assert(rv[j as int] == entries@[j as int].1@);
        assert(reg.contains_key(rv[j as int].name));
        if chars_eq(&other, &name) {
            let ghost key = s.name@;
            assert(reg.contains_key(key));
            let prev_scope = entries[j].0;
            let prev_loc = entries[j].1.location.clone();
            assert(reg[key].1 == rv[j as int]);
            assert(es[j as int].0 as int == reg[es[j as int].1.name@].0);
            if prev_scope >= scope {
                let m = shadowed_message(s.name.as_str(), s.location.as_str(), prev_loc.as_str());
                notes.push(m);
                assert(string_views(notes@) =~= ns.push(m@));
            } else {
                let m = replaced_message(s.name.as_str(), s.location.as_str(), prev_loc.as_str());
                notes.push(m);
                assert(string_views(notes@) =~= ns.push(m@));
                entries.set(j, (scope, copy_skill(s)));
                proof {
                    let reg2 = reg.insert(key, (scope as int, s@));
                    let rv2 = entry_views(entries@);
                    assert(rv2 =~= rv.update(j as int, s@));
                    assert forall|a: int, b: int| 0 <= a < b < rv2.len() implies text_lt(
                        #[trigger] rv2[a].name,
                        #[trigger] rv2[b].name,
                    ) by {
                        assert(text_lt(rv[a].name, rv[b].name));
                    }
                    assert forall|a: int| 0 <= a < rv2.len() implies #[trigger] reg2.contains_key(rv2[a].name)
                        && reg2[rv2[a].name].1 == rv2[a] by {
                        if a == j {
                            assert(rv2[a] == s@);
                        } else {
                            assert(rv2[a] == rv[a]);
                            assert(reg.contains_key(rv[a].name));
                            if a < j {
                                assert(text_lt(rv[a].name, rv[j as int].name));
                            } else {
                                assert(text_lt(rv[j as int].name, rv[a].name));
                            }
                            lemma_text_lt_irrefl(rv[a].name);
                            assert(rv[a].name != key);
                        }
                    }
                    assert forall|k: Seq<char>| #[trigger] reg2.contains_key(k) implies exists|a: int|
                        0 <= a < rv2.len() && rv2[a].name == k by {
                        if k == key {
                            assert(rv2[j as int].name == k);
                        } else {
                            assert(reg.contains_key(k));
                            let a = choose|a: int| 0 <= a < rv.len() && rv[a].name == k;
                            assert(rv2[a].name == k);
                        }
                    }
                    assert forall|q: int| 0 <= q < entries@.len() implies (#[trigger] entries@[q]).0 as int
                        == reg2[entries@[q].1.name@].0 by {
                        if q != j {
                            assert(rv[q] == rv2[q]);
                            if q < j {
                                assert(text_lt(rv[q].name, rv[j as int].name));
                            } else {
                                assert(text_lt(rv[j as int].name, rv[q].name));
                            }
                            lemma_text_lt_irrefl(rv[q].name);
                        }
                    }
                }
            }
            return;
        }
        if text_lt_exec(&name, &other) {
            proof {
                lemma_absent(rv, reg, s.name@, j as int);
            }
            entries.insert(j, (scope, copy_skill(s)));
            proof {
                lemma_inserted(es, entries@, reg, j as int, scope as int, s@);
            }
            return;
        }
        proof {
            lemma_text_lt_total(name@, other@);
        }
        j = j + 1;
    }
    proof {
        lemma_absent(rv, reg, s.name@, len as int);
    }
    entries.push((scope, copy_skill(s)));
    proof {
        lemma_inserted(es, entries@, reg, len as int, scope as int, s@);
    }
}

/// A name below the entries from `j` on and above those before is absent.
proof fn lemma_absent(rv: Seq<SkillView>, reg: Registry, name: Seq<char>, j: int)
    requires
        lists_registry(rv, reg),
        0 <= j <= rv.len(),
        forall|q: int| 0 <= q < j ==> text_lt(#[trigger] rv[q].name, name),
        j < rv.len() ==> text_lt(name, rv[j].name),
    ensures
        !reg.contains_key(name),
{
    if reg.contains_key(name) {
        let a = choose|a: int| 0 <= a < rv.len() && rv[a].name == name;
        lemma_text_lt_irrefl(name);
        if a < j {
            assert(text_lt(rv[a].name, name));
        } else if a > j {
            assert(text_lt(rv[j].name, rv[a].name));
            lemma_text_lt_trans(name, rv[j].name, name);
        }
    }
}

/// Inserting an absent name at its ordered place keeps the entries listing
/// the registry.
proof fn lemma_inserted(es: Seq<(usize, Skill)>, es2: Seq<(usize, Skill)>, reg: Registry, j: int, scope: int, s: SkillView)
    requires
        entries_hold(es, reg),
        !reg.contains_key(s.name),
        0 <= j <= es.len(),
        es2.len() == es.len() + 1,
        forall|q: int| 0 <= q < j ==> #[trigger] es2[q] == es[q],
        forall|q: int| j < q < es2.len() ==> #[trigger] es2[q] == es[q - 1],
        es2[j].0 as int == scope,
        es2[j].1@ == s,
        forall|q: int| 0 <= q < j ==> text_lt(#[trigger] entry_views(es)[q].name, s.name),
        j < es.len() ==> text_lt(s.name, entry_views(es)[j].name),
    ensures
        entries_hold(es2, register(reg, Seq::empty(), scope, s).0),
{
    let rv = entry_views(es);
    let rv2 = entry_views(es2);
    let reg2 = reg.insert(s.name, (scope, s));
    assert(register(reg, Seq::empty(), scope, s).0 == reg2);
    assert forall|q: int| 0 <= q < rv.len() implies rv[q].name != s.name by {
        assert(reg.contains_key(rv[q].name));
    }
    assert forall|a: int, b: int| 0 <= a < b < rv2.len() implies text_lt(
        #[trigger] rv2[a].name,
        #[trigger] rv2[b].name,
    ) by {
        if b < j {
            assert(rv2[a] == rv[a]);
            assert(rv2[b] == rv[b]);
            assert(text_lt(rv[a].name, rv[b].name));
        } else if b == j {
            assert(rv2[a] == rv[a]);
            assert(rv2[b] == s);
        } else if a < j {
            assert(rv2[a] == rv[a]);
            assert(rv2[b] == rv[b - 1]);
            assert(text_lt(rv[a].name, s.name));
            if b - 1 == j {
            } else {
                assert(text_lt(rv[j].name, rv[b - 1].name));
                lemma_text_lt_trans(s.name, rv[j].name, rv[b - 1].name);
            }
            lemma_text_lt_trans(rv[a].name, s.name, rv[b - 1].name);
        } else if a == j {
            assert(rv2[a] == s);
            assert(rv2[b] == rv[b - 1]);
            if b - 1 > j {
                assert(text_lt(rv[j].name, rv[b - 1].name));
                lemma_text_lt_trans(s.name, rv[j].name, rv[b - 1].name);
            }
        } else {
            assert(rv2[a] == rv[a - 1]);
            assert(rv2[b] == rv[b - 1]);
            assert(text_lt(rv[a - 1].name, rv[b - 1].name));
        }
    }
    assert forall|a: int| 0 <= a < rv2.len() implies #[trigger] reg2.contains_key(rv2[a].name)
        && reg2[rv2[a].name].1 == rv2[a] by {
        if a < j {
            assert(rv2[a] == rv[a]);
            assert(reg.contains_key(rv[a].name));
        } else if a > j {
            assert(rv2[a] == rv[a - 1]);
            assert(reg.contains_key(rv[a - 1].name));
        } else {
            assert(rv2[a] == s);
        }
    }
    assert forall|k: Seq<char>| #[trigger] reg2.contains_key(k) implies exists|a: int|
        0 <= a < rv2.len() && rv2[a].name == k by {
        if k == s.name {
            assert(rv2[j].name == k);
        } else {
            let a = choose|a: int| 0 <= a < rv.len() && rv[a].name == k;
            if a < j {
                assert(rv2[a].name == k);
            } else {
                assert(rv2[a + 1].name == k);
            }
        }
    }
    assert forall|q: int| 0 <= q < es2.len() implies (#[trigger] es2[q]).0 as int == reg2[es2[q].1.name@].0 by {
        if q < j {
            assert(es2[q] == es[q]);
            assert(rv[q].name != s.name);
        } else if q > j {
            assert(es2[q] == es[q - 1]);
            assert(rv[q - 1].name != s.name);
        }
    }
}

/// The workspace's skill registry from the skills found under each root, in
/// scan order, each with its scope (0 for the system roots, 1 for the
/// project's): one skill per name, project over system, within a scope the
/// first found; ordered by name. Also the shadowing diagnostics.
pub fn discover(found: &[(usize, Skill)]) -> (r: (Vec<Skill>, Vec<String>))
    ensures
        lists_registry(skill_views(r.0@), registry(found_views(found@)).0),
        string_views(r.1@) == registry(found_views(found@)).1,
{
    let ghost fv = found_views(found@);
    let mut entries: Vec<(usize, Skill)> = Vec::new();
    let mut notes: Vec<String> = Vec::new();
    let mut i: usize = 0;
    assert(string_views(notes@) =~= Seq::<Seq<char>>::empty());
    assert(entry_views(entries@) =~= Seq::<SkillView>::empty());
    assert(fv.take(0) =~= Seq::<(int, SkillView)>::empty());
    while i < found.len()
        invariant
            i <= found@.len(),
            fv == found_views(found@),
            entries_hold(entries@, registry(fv.take(i as int)).0),
            string_views(notes@) == registry(fv.take(i as int)).1,
        decreases found@.len() - i,
    {
        assert(fv.take(i + 1).drop_last() =~= fv.take(i as int));
        let (scope, ref s) = found[i];
        let ghost reg = registry(fv.take(i as int)).0;
        register_skill(&mut entries, &mut notes, scope, s, Ghost(reg));
        proof {
            lemma_register_notes(reg, registry(fv.take(i as int)).1, scope as int, s@);
        }
        i = i + 1;
    }
    assert(fv.take(found@.len() as int) =~= fv);
    let ghost reg = registry(fv).0;
    let mut out: Vec<Skill> = Vec::new();
    let mut q: usize = 0;
    while q < entries.len()
        invariant
            q <= entries@.len(),
            entries_hold(entries@, reg),
            skill_views(out@) == entry_views(entries@).take(q as int),
        decreases entries@.len() - q,
    {
        let ghost before = skill_views(out@);
        let c = copy_skill(&entries[q].1);
        out.push(c);
        assert(entry_views(entries@)[q as int] == entries@[q as int].1@);
        assert(skill_views(out@) =~= before.push(c@));
        assert(entry_views(entries@).take(q + 1) =~= entry_views(entries@).take(q as int).push(
            entries@[q as int].1@,
        ));
        q = q + 1;
    }
    assert(entry_views(entries@).take(entries@.len() as int) =~= entry_views(entries@));
    (out, notes)
}

/// The registry a registration yields does not depend on the diagnostics
/// collected before it, which it only extends.
proof fn lemma_register_notes(reg: Registry, notes: Seq<Seq<char>>, scope: int, s: SkillView)
    ensures
        register(reg, notes, scope, s).0 == register(reg, Seq::empty(), scope, s).0,
{
}

/// The highest scope among the found skills named `n`, if any.
pub open spec fn top_scope(found: Seq<(int, SkillView)>, n: Seq<char>) -> Option<int>
    decreases found.len(),
{
    if found.len() == 0 {
        None
    } else {
        let prev = top_scope(found.drop_last(), n);
        let (sc, s) = found.last();
        if s.name != n {
            prev
        } else {
            match prev {
                Some(p) => Some(if sc > p { sc } else { p }),
                None => Some(sc),
            }
        }
    }
}

/// The first found skill named `n` in scope `sc`.
pub open spec fn first_in_scope(found: Seq<(int, SkillView)>, n: Seq<char>, sc: int) -> Option<SkillView>
    decreases found.len(),
{
    if found.len() == 0 {
        None
    } else {
        match first_in_scope(found.drop_last(), n, sc) {
            Some(s) => Some(s),
            None => if found.last().1.name == n && found.last().0 == sc {
                Some(found.last().1)
            } else {
                None
            },
        }
    }
}

/// Project wins, then the first found: the skill registered under a name
/// is the first one found in the highest scope that has that name, and a
/// name is registered exactly when some found skill has it.
pub proof fn lemma_registry_winner(found: Seq<(int, SkillView)>, n: Seq<char>)
    ensures
        registry(found).0.contains_key(n) <==> top_scope(found, n) is Some,
        top_scope(found, n) matches Some(sc) ==> registry(found).0[n].0 == sc && first_in_scope(found, n, sc)
            == Some(registry(found).0[n].1),
    decreases found.len(),
{
    if found.len() > 0 {
        let prev = found.drop_last();
        lemma_registry_winner(prev, n);
        let (reg, notes) = registry(prev);
        let (sc, s) = found.last();
        if s.name == n {
            match top_scope(prev, n) {
                None => {
                    lemma_first_in_scope_none(prev, n, sc);
                },
                Some(p) => {
                    if sc > p {
                        lemma_first_in_scope_none(prev, n, sc);
                    }
                },
            }
        }
    }
}

/// Below the top scope (or with no skill of the name) no skill is first.
proof fn lemma_first_in_scope_none(found: Seq<(int, SkillView)>, n: Seq<char>, sc: int)
    requires
        top_scope(found, n) matches Some(p) ==> sc > p,
    ensures
        first_in_scope(found, n, sc) is None,
    decreases found.len(),
{
    if found.len() > 0 {
        let prev = found.drop_last();
        match top_scope(prev, n) {
            None => {},
            Some(p) => {
                assert(top_scope(found, n) is Some);
            },
        }
        lemma_first_in_scope_none(prev, n, sc);
    }
}

} // verus!

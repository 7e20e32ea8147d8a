//! What the session snapshot shows of entries: the one-line preview of an
//! entry, whether it ended interrupted, the session's usage, the model
//! notes a model change appends and a reopened session reads back, and
//! which page of entries a paged read asks for.

use crate::om_integration::{branch_entries, branch_of, branch_ok, entry_views, opt_str, EntryInfo, EntryView};
use crate::text::{
    append_str, chars_eq, chars_of, lines_chars, lines_of, matches_at, slice_vec, starts_with, starts_with_exec,
    string_of,
};
use vstd::prelude::*;

verus! {

/// The first line of a text (`str::lines`), empty when it has none.
pub open spec fn first_line(s: Seq<char>) -> Seq<char> {
    if lines_of(s).len() == 0 {
        Seq::empty()
    } else {
        lines_of(s)[0]
    }
}

/// The entry tree's one-line preview of a text: its first line cut at 80
/// characters, with an ellipsis when the line is longer than 80 bytes.
pub open spec fn preview_of(text: Seq<char>) -> Seq<char> {
    let first = first_line(text);
    let cut = if first.len() <= 80 {
        first
    } else {
        first.take(80)
    };
    if vstd::utf8::encode_utf8(first).len() > 80 {
        cut.push('…')
    } else {
        cut
    }
}

/// The one-line preview of an entry's text (the payload's first string
/// among `text`, `note`, `state` and `output`, as the caller reads it).
pub fn preview(text: &str) -> (r: String)
    ensures
        r@ == preview_of(text@),
{
    let ls = lines_chars(&chars_of(text));
    let first: Vec<char> = if ls.len() == 0 {
        Vec::new()
    } else {
        slice_vec(&ls[0], 0, ls[0].len())
    };
    assert(first@ =~= first_line(text@));
    let n = if first.len() <= 80 { first.len() } else { 80 };
    let mut out = slice_vec(&first, 0, n);
    let fs = string_of(&first);
    if fs.as_str().as_bytes().len() > 80 {
        out.push('…');
    }
    string_of(&out)
}

/// The quiet entry a model change appends: `model: <old> → <new>`, or
/// `model: <new>` for the first model of a session.
pub open spec fn model_note_of(old: Option<Seq<char>>, new: Seq<char>) -> Seq<char> {
    match old {
        Some(o) => "model: "@ + o + " → "@ + new,
        None => "model: "@ + new,
    }
}

pub fn model_note(old: &Option<String>, new: &str) -> (r: String)
    ensures
        r@ == model_note_of(opt_str_owned(*old), new@),
{
    let mut out = chars_of("model: ");
    match old {
        Some(o) => {
            append_str(&mut out, o.as_str());
            append_str(&mut out, " → ");
        },
        None => {},
    }
    append_str(&mut out, new);
    string_of(&out)
}

pub open spec fn opt_str_owned(o: Option<String>) -> Option<Seq<char>> {
    match o {
        Some(s) => Some(s@),
        None => None,
    }
}

/// The last place at or before `i` where `p` occurs in `s`.
pub open spec fn last_match_from(s: Seq<char>, p: Seq<char>, i: int) -> Option<int>
    decreases i + 1,
{
    if i < 0 {
        None
    } else if matches_at(s, p, i) {
        Some(i)
    } else {
        last_match_from(s, p, i - 1)
    }
}

/// The text after the last occurrence of `p` (all of it when `p` does not
/// occur): the first piece of a split from the right.
pub open spec fn after_last(s: Seq<char>, p: Seq<char>) -> Seq<char> {
    match last_match_from(s, p, s.len() - p.len()) {
        Some(i) => s.skip(i + p.len()),
        None => s,
    }
}

/// The model a model note names: the part after its last arrow.
pub open spec fn noted_model(note: Seq<char>) -> Seq<char> {
    after_last(note.skip(7), " → "@)
}

/// A system entry whose note starts with `model: `.
pub open spec fn is_model_note(e: EntryView) -> bool {
    e.kind == "system"@ && (e.note matches Some(n) && starts_with(n, "model: "@))
}

/// The model the last model note on the entries names, if any.
pub open spec fn last_model_of(b: Seq<EntryView>) -> Option<Seq<char>>
    decreases b.len(),
{
    if b.len() == 0 {
        None
    } else if is_model_note(b.last()) {
        Some(noted_model(b.last().note.unwrap()))
    } else {
        last_model_of(b.drop_last())
    }
}

fn after_last_exec(s: &[char], p: &[char]) -> (r: Vec<char>)
    requires
        p@.len() > 0,
    ensures
        r@ == after_last(s@, p@),
{
    if p.len() > s.len() {
        proof {
            assert(last_match_from(s@, p@, s@.len() - p@.len()) is None);
        }
        return slice_vec(s, 0, s.len());
    }
    let mut i: usize = s.len() - p.len() + 1;
    while i > 0
        invariant
            i <= s@.len() - p@.len() + 1,
            p@.len() > 0,
            p@.len() <= s@.len(),
            last_match_from(s@, p@, s@.len() - p@.len()) == last_match_from(s@, p@, i - 1),
        decreases i,
    {
        if crate::text::match_at(s, p, i - 1) {
            assert(i - 1 + p.len() <= s.len());
            return slice_vec(s, i - 1 + p.len(), s.len());
        }
        i = i - 1;
    }
    assert(s@.subrange(0, s@.len() as int) =~= s@);
    slice_vec(s, 0, s.len())
}

/// The session's current model from its entries: what the last `model:`
/// note on the active branch names (a closed session's header carries no
/// model, so the quiet entries are the record).
pub fn last_model_note(entries: &[EntryInfo], leaf_id: Option<&str>) -> (r: Option<String>)
    requires
        branch_ok(entry_views(entries@), opt_str(leaf_id)),
    ensures
        opt_str_owned(r) == last_model_of(branch_of(entry_views(entries@), opt_str(leaf_id))),
{
    let branch = branch_entries(entries, leaf_id);
    let ghost b = entry_views(branch@);
    let system = chars_of("system");
    let prefix = chars_of("model: ");
    let arrow = chars_of(" → ");
    proof {
        reveal_strlit(" → ");
        reveal_strlit("model: ");
    }
    let mut n = branch.len();
    assert(b.take(n as int) =~= b);
    while n > 0
        invariant
            n <= branch@.len(),
            b == entry_views(branch@),
            b == branch_of(entry_views(entries@), opt_str(leaf_id)),
            system@ == "system"@,
            prefix@ == "model: "@,
            arrow@ == " → "@,
            arrow@.len() == 3,
            prefix@.len() == 7,
            last_model_of(b) == last_model_of(b.take(n as int)),
        decreases n,
    {
        let e = &branch[n - 1];
        assert(b[n - 1] == e@);
        assert(b.take(n as int).drop_last() =~= b.take(n - 1));
        if chars_eq(&chars_of(e.kind.as_str()), &system) {
            match &e.note {
                Some(note) => {
                    let nv = chars_of(note.as_str());
                    if starts_with_exec(&nv, &prefix) {
                        let rest = slice_vec(&nv, 7, nv.len());
                        assert(rest@ =~= nv@.skip(7));
                        let m = after_last_exec(&rest, &arrow);
                        return Some(string_of(&m));
                    }
                },
                None => {},
            }
        }
        n = n - 1;
    }
    None
}


/// Did the entry end interrupted: an assistant entry whose payload says
/// so.
pub fn entry_interrupted(kind: &str, interrupted: bool) -> (r: bool)
    ensures
        r == (kind@ == "assistant"@ && interrupted),
{
    interrupted && chars_eq(&chars_of(kind), &chars_of("assistant"))
}

/// The usage the latest assistant entry reported, from `i` back.
pub open spec fn latest_usage_from<U>(kinds: Seq<(Seq<char>, Option<U>)>, i: int) -> Option<U>
    decreases i,
{
    if i <= 0 {
        None
    } else if kinds[i - 1].0 == "assistant"@ {
        kinds[i - 1].1
    } else {
        latest_usage_from(kinds, i - 1)
    }
}

pub open spec fn kind_views<U>(v: Seq<(String, Option<U>)>) -> Seq<(Seq<char>, Option<U>)> {
    v.map_values(|e: (String, Option<U>)| (e.0@, e.1))
}

/// The session's usage in a snapshot: the usage of its last assistant
/// entry (none when that entry reported none, or there is no assistant
/// entry).
pub fn snapshot_usage<U: Copy>(entries: &[(String, Option<U>)]) -> (r: Option<U>)
    ensures
        r == latest_usage_from(kind_views(entries@), entries@.len() as int),
{
    let ghost kv = kind_views(entries@);
    let assistant = chars_of("assistant");
    let mut i = entries.len();
    while i > 0
        invariant
            i <= entries@.len(),
            kv == kind_views(entries@),
            assistant@ == "assistant"@,
            latest_usage_from(kv, entries@.len() as int) == latest_usage_from(kv, i as int),
        decreases i,
    {
        if chars_eq(&chars_of(entries[i - 1].0.as_str()), &assistant) {
            return entries[i - 1].1;
        }
        i = i - 1;
    }
    None
}

/// Which entries a paged read asks for.
#[derive(Debug, Clone, PartialEq, Eq)]
pub enum PageRequest {
    /// The entries after this cursor.
    Since(String),
    /// The entries in positions `start..end` of the file.
    Range(usize, usize),
}

/// A paged read names exactly one of a cursor and a range (a full dump
/// with payloads is no command); a range is its start and count.
pub fn page_request(since: Option<String>, range: Option<(usize, usize)>) -> (r: Result<PageRequest, String>)
    requires
        range matches Some((start, count)) ==> start + count <= usize::MAX,
    ensures
        match (since, range) {
            (Some(c), None) => r matches Ok(PageRequest::Since(d)) && d@ == c@,
            (None, Some((start, count))) => r == Ok::<PageRequest, String>(PageRequest::Range(start, (start + count) as usize)),
            _ => r matches Err(m) && m@ == "exactly one of since/range is required"@,
        },
{
    match (since, range) {
        (Some(c), None) => Ok(PageRequest::Since(c)),
        (None, Some((start, count))) => Ok(PageRequest::Range(start, start + count)),
        _ => Err(String::from_str("exactly one of since/range is required")),
    }
}

} // verus!

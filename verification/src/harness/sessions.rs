//! Session-level decisions of the harness: a `/skill:` invocation at the
//! send boundary, and the refusals a session operation answers with.

use crate::skills::Skill;
use crate::text::{
    append_str, chars_eq, chars_of, char_is_ws, is_ws, slice_vec, starts_with, starts_with_exec, string_of, trim,
    trim_chars,
};
use vstd::prelude::*;

verus! {

/// The first whitespace character of `s` at or after `i`.
pub open spec fn first_ws_from(s: Seq<char>, i: int) -> Option<int>
    decreases s.len() - i,
{
    if i < 0 || i >= s.len() {
        None
    } else if is_ws(s[i]) {
        Some(i)
    } else {
        first_ws_from(s, i + 1)
    }
}

/// A `/skill:` invocation: the name up to the first whitespace character
/// and the trimmed rest as arguments (none when blank); `None` when the
/// text does not start with `/skill:`.
pub open spec fn skill_invocation_of(text: Seq<char>) -> Option<(Seq<char>, Option<Seq<char>>)> {
    if !starts_with(text, "/skill:"@) {
        None
    } else {
        let rest = text.skip(7);
        let (name, args) = match first_ws_from(rest, 0) {
            Some(i) => (rest.take(i), trim(rest.skip(i + 1))),
            None => (rest, Seq::empty()),
        };
        Some((name, if args.len() == 0 { None } else { Some(args) }))
    }
}

pub open spec fn opt_text(o: Option<String>) -> Option<Seq<char>> {
    match o {
        Some(s) => Some(s@),
        None => None,
    }
}

/// Parse a leading `/skill:` invocation of a message.
pub fn skill_invocation(text: &str) -> (r: Option<(String, Option<String>)>)
    ensures
        match (r, skill_invocation_of(text@)) {
            (None, None) => true,
            (Some((n, a)), Some((sn, sa))) => n@ == sn && opt_text(a) == sa,
            _ => false,
        },
{
    let v = chars_of(text);
    let p = chars_of("/skill:");
    proof {
        reveal_strlit("/skill:");
    }
    if !starts_with_exec(&v, &p) {
        return None;
    }
    let rest = slice_vec(&v, 7, v.len());
    assert(rest@ =~= text@.skip(7));
    let mut i: usize = 0;
    while i < rest.len() && !char_is_ws(rest[i])
        invariant
            i <= rest@.len(),
            first_ws_from(rest@, 0) == first_ws_from(rest@, i as int),
        decreases rest@.len() - i,
    {
        i = i + 1;
    }
    let (name, args) = if i < rest.len() {
        let n = slice_vec(&rest, 0, i);
        let after = slice_vec(&rest, i + 1, rest.len());
        assert(n@ =~= rest@.take(i as int));
        assert(after@ =~= rest@.skip(i + 1));
        (n, trim_chars(&after))
    } else {
        assert(rest@.subrange(0, rest@.len() as int) =~= rest@);
        (slice_vec(&rest, 0, rest.len()), Vec::new())
    };
    let a = if args.len() == 0 {
        None
    } else {
        Some(string_of(&args))
    };
    Some((string_of(&name), a))
}

pub open spec fn skill_names(skills: Seq<Skill>) -> Seq<Seq<char>> {
    skills.map_values(|s: Skill| s.name@)
}

/// The first skill named `name`, or the send's refusal.
pub fn find_skill(skills: &[Skill], name: &str) -> (r: Result<usize, String>)
    ensures
        match r {
            Ok(i) => i < skills@.len() && skills@[i as int].name@ == name@ && forall|j: int|
                0 <= j < i ==> skills@[j].name@ != name@,
            Err(m) => !skill_names(skills@).contains(name@) && m@ == "unknown skill '"@ + name@
                + "' — the send was not recorded"@,
        },
{
    let k = chars_of(name);
    let mut i: usize = 0;
    while i < skills.len()
        invariant
            i <= skills@.len(),
            k@ == name@,
            forall|j: int| 0 <= j < i ==> skills@[j].name@ != name@,
        decreases skills@.len() - i,
    {
        if chars_eq(&chars_of(skills[i].name.as_str()), &k) {
            return Ok(i);
        }
        i = i + 1;
    }
    proof {
        if skill_names(skills@).contains(name@) {
            let j = choose|j: int| 0 <= j < skill_names(skills@).len() && skill_names(skills@)[j] == name@;
            assert(skills@[j].name@ == name@);
        }
    }
    let mut m = chars_of("unknown skill '");
    append_str(&mut m, name);
    append_str(&mut m, "' — the send was not recorded");
    Err(string_of(&m))
}

/// The refusal of an operation on a session with a turn in flight.
pub fn running_turn_refusal(session: &str) -> (r: String)
    ensures
        r@ == "session "@ + session@ + " is running — stop it first"@,
{
    let mut m = chars_of("session ");
    append_str(&mut m, session);
    append_str(&mut m, " is running — stop it first");
    string_of(&m)
}

/// The refusal of an archive whose session started a turn meanwhile.
pub fn archive_turn_refusal(session: &str) -> (r: String)
    ensures
        r@ == "session "@ + session@ + " started a turn while archiving — stop it and retry"@,
{
    let mut m = chars_of("session ");
    append_str(&mut m, session);
    append_str(&mut m, " started a turn while archiving — stop it and retry");
    string_of(&m)
}

/// Where a sub-agent's parent stands, as an archive refusal names it.
pub enum ParentPlace {
    /// The parent session is live.
    Live,
    /// The parent's workspace is not open.
    WorkspaceClosed,
    /// The parent is closed and its file is present, with its title when
    /// the file opens and has one.
    OnDisk(Option<String>),
    /// The parent is archived.
    Archived,
    /// The parent is not open and has no session file.
    Missing,
}

/// The text of a sub-agent's direct-archive refusal: the route that
/// actually works is to archive the parent, which archives the child.
pub open spec fn child_refusal_of(child: Seq<char>, parent: Option<Seq<char>>, place: ParentPlace) -> Seq<char> {
    let head = "session "@ + child + " is a sub-agent — "@;
    match parent {
        None => head + "archive its parent session to archive it"@,
        Some(p) => match place {
            ParentPlace::Live => head + "archive its parent session "@ + p + " to archive it"@,
            ParentPlace::WorkspaceClosed => head + "the parent session "@ + p
                + " is not open — reopen it and archive it, which archives this sub-agent with it"@,
            ParentPlace::OnDisk(title) => head + "the parent session "@ + p + " ("@ + match title {
                Some(t) => t@,
                None => p,
            } + ") is not open — reopen it and archive it, which archives this sub-agent with it"@,
            ParentPlace::Archived => head + "its parent session "@ + p
                + " is archived — restore it, which restores this sub-agent with it"@,
            ParentPlace::Missing => head + "its parent session "@ + p + " is not open and has no session file"@,
        },
    }
}

/// The direct-archive refusal for a sub-agent, naming where its parent
/// stands.
pub fn archive_refusal_for_child(child: &str, parent: Option<&str>, place: &ParentPlace) -> (r: String)
    ensures
        r@ == child_refusal_of(
            child@,
            match parent {
                Some(p) => Some(p@),
                None => None,
            },
            *place,
        ),
{
    let mut m = chars_of("session ");
    append_str(&mut m, child);
    append_str(&mut m, " is a sub-agent — ");
    match parent {
        None => append_str(&mut m, "archive its parent session to archive it"),
        Some(p) => match place {
            ParentPlace::Live => {
                append_str(&mut m, "archive its parent session ");
                append_str(&mut m, p);
                append_str(&mut m, " to archive it");
            },
            ParentPlace::WorkspaceClosed => {
                append_str(&mut m, "the parent session ");
                append_str(&mut m, p);
                append_str(&mut m, " is not open — reopen it and archive it, which archives this sub-agent with it");
            },
            ParentPlace::OnDisk(title) => {
                append_str(&mut m, "the parent session ");
                append_str(&mut m, p);
                append_str(&mut m, " (");
                match title {
                    Some(t) => append_str(&mut m, t.as_str()),
                    None => append_str(&mut m, p),
                }
                append_str(&mut m, ") is not open — reopen it and archive it, which archives this sub-agent with it");
            },
            ParentPlace::Archived => {
                append_str(&mut m, "its parent session ");
                append_str(&mut m, p);
                append_str(&mut m, " is archived — restore it, which restores this sub-agent with it");
            },
            ParentPlace::Missing => {
                append_str(&mut m, "its parent session ");
                append_str(&mut m, p);
                append_str(&mut m, " is not open and has no session file");
            },
        },
    }
    string_of(&m)
}

} // verus!

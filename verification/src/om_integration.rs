//! Observational memory in a running session: the active branch of the
//! session's entries, the raw text the observer reads, the turn-end plan
//! (observe, buffer, reflect) and its commit, buffered-chunk activation,
//! the overflow ladder for a frozen prefix, and the raw window. Reading
//! and appending session entries is the application's.

use crate::om::{
    append_observation, appended_observation, chunk_values, projected_message_removal,
    projected_removal, token_count, token_count_of, ChunkTokens, Cursor, OmRecord, OmThresholds,
};
use crate::om::groups::{
    combine_group_ranges, combined, generate_group_id, group_id_of, group_views, groups_ok, groups_of,
    parse_observation_groups, push_segments, strip_ok, trimmed_nonempty, wrap_in_observation_group, wrapped,
    GroupSpec, ObservationGroup,
};
use crate::om::reflector::{frozen_head, frozen_note, reflector_prompt};
use crate::provider::stream::{TurnEvent, TurnSink};
use crate::session::file::{is_store_message, StoreError};
use crate::text::{
    append_chars, append_str, chars_eq, chars_of, is_blank, lemma_split_nonempty, slice_vec, split, split_chars,
    string_of, trim,
};
use vstd::prelude::*;

verus! {

/// What the core reads of a session entry: its place in the tree, its
/// kind and timestamp, and the payload's `text`, `reasoning`, `output` and
/// `note` strings (absent when the payload has none, or not as a string).
#[derive(Debug, Clone, PartialEq, Eq)]
pub struct EntryInfo {
    pub id: String,
    pub parent: Option<String>,
    pub timestamp: u64,
    pub kind: String,
    pub text: Option<String>,
    pub reasoning: Option<String>,
    pub output: Option<String>,
    pub note: Option<String>,
}

pub struct EntryView {
    pub id: Seq<char>,
    pub parent: Option<Seq<char>>,
    pub timestamp: u64,
    pub kind: Seq<char>,
    pub text: Option<Seq<char>>,
    pub reasoning: Option<Seq<char>>,
    pub output: Option<Seq<char>>,
    pub note: Option<Seq<char>>,
}

pub open spec fn opt_view(o: Option<String>) -> Option<Seq<char>> {
    match o {
        Some(s) => Some(s@),
        None => None,
    }
}

impl View for EntryInfo {
    type V = EntryView;

    open spec fn view(&self) -> EntryView {
        EntryView {
            id: self.id@,
            parent: opt_view(self.parent),
            timestamp: self.timestamp,
            kind: self.kind@,
            text: opt_view(self.text),
            reasoning: opt_view(self.reasoning),
            output: opt_view(self.output),
            note: opt_view(self.note),
        }
    }
}

pub open spec fn entry_views(es: Seq<EntryInfo>) -> Seq<EntryView> {
    es.map_values(|e: EntryInfo| e@)
}

fn copy_opt(o: &Option<String>) -> (r: Option<String>)
    ensures
        opt_view(r) == opt_view(*o),
{
    match o {
        Some(s) => Some(s.clone()),
        None => None,
    }
}

fn copy_entry(e: &EntryInfo) -> (r: EntryInfo)
    ensures
        r@ == e@,
{
    EntryInfo {
        id: e.id.clone(),
        parent: copy_opt(&e.parent),
        timestamp: e.timestamp,
        kind: e.kind.clone(),
        text: copy_opt(&e.text),
        reasoning: copy_opt(&e.reasoning),
        output: copy_opt(&e.output),
        note: copy_opt(&e.note),
    }
}

/// An observational-memory failure: session storage.
#[derive(Debug)]
pub enum OmError {
    Session(StoreError),
}

impl OmError {
    /// The failure as a message: `session: ` before the storage error's.
    pub fn message(&self) -> (r: String)
        ensures
            match *self {
                OmError::Session(e) => r@.len() >= 9 && r@.take(9) == "session: "@ && is_store_message(
                    e,
                    r@.skip(9),
                ),
            },
    {
        match self {
            OmError::Session(e) => {
                let inner = e.message();
                let mut out = chars_of("session: ");
                append_str(&mut out, inner.as_str());
                proof {
                    reveal_strlit("session: ");
                }
                assert(out@.take(9) =~= "session: "@);
                assert(out@.skip(9) =~= inner@);
                string_of(&out)
            },
        }
    }
}

impl From<StoreError> for OmError {
    fn from(e: StoreError) -> (r: OmError) {
        OmError::Session(e)
    }
}

impl vstd::std_specs::convert::FromSpecImpl<StoreError> for OmError {
    open spec fn obeys_from_spec() -> bool {
        true
    }

    open spec fn from_spec(e: StoreError) -> OmError {
        OmError::Session(e)
    }
}

/// The sink of an observational-memory model call: such calls are not
/// the user's, and nothing stops them.
pub struct NoopSink;

impl<U> TurnSink<U> for NoopSink {
    fn event(&mut self, event: TurnEvent<U>) -> (r: bool)
        ensures
            r,
    {
        true
    }
}

/// An entry kind the observer reads: a user, assistant or tool entry.
pub open spec fn is_raw_kind(k: Seq<char>) -> bool {
    k == "user"@ || k == "assistant"@ || k == "tool"@
}

pub fn is_raw(entry: &EntryInfo) -> (r: bool)
    ensures
        r == is_raw_kind(entry@.kind),
{
    let k = chars_of(entry.kind.as_str());
    chars_eq(&k, &chars_of("user")) || chars_eq(&k, &chars_of("assistant")) || chars_eq(
        &k,
        &chars_of("tool"),
    )
}

/// An entry's raw text: its `text`, else its `reasoning` on a line of its
/// own followed by its `output`.
pub open spec fn entry_text_of(e: EntryView) -> Seq<char> {
    let text = match e.text {
        Some(t) => t,
        None => Seq::empty(),
    };
    if text.len() > 0 {
        text
    } else {
        let r = match e.reasoning {
            Some(r) => if r.len() > 0 {
                r + seq!['\n']
            } else {
                Seq::empty()
            },
            None => Seq::empty(),
        };
        r + match e.output {
            Some(o) => o,
            None => Seq::empty(),
        }
    }
}

pub fn entry_text(entry: &EntryInfo) -> (r: String)
    ensures
        r@ == entry_text_of(entry@),
{
    match &entry.text {
        Some(t) => {
            if chars_of(t.as_str()).len() > 0 {
                return t.clone();
            }
        },
        None => {},
    }
    let mut out: Vec<char> = Vec::new();
    match &entry.reasoning {
        Some(r) => {
            let rv = chars_of(r.as_str());
            if rv.len() > 0 {
                append_chars(&mut out, &rv);
                out.push('\n');
            }
        },
        None => {},
    }
    match &entry.output {
        Some(o) => {
            append_str(&mut out, o.as_str());
        },
        None => {},
    }
    string_of(&out)
}

/// The observer's transcript: `[kind] text` per entry with non-blank text.
pub open spec fn transcript_of(es: Seq<EntryView>) -> Seq<char>
    decreases es.len(),
{
    if es.len() == 0 {
        Seq::empty()
    } else {
        let e = es.last();
        let t = entry_text_of(e);
        transcript_of(es.drop_last()) + if trim(t).len() == 0 {
            Seq::empty()
        } else {
            seq!['['] + e.kind + "] "@ + t + seq!['\n']
        }
    }
}

pub fn transcript(entries: &[EntryInfo]) -> (r: String)
    ensures
        r@ == transcript_of(entry_views(entries@)),
{
    let ghost ev = entry_views(entries@);
    let mut out: Vec<char> = Vec::new();
    let mut i: usize = 0;
    while i < entries.len()
        invariant
            i <= entries@.len(),
            ev == entry_views(entries@),
            out@ == transcript_of(ev.take(i as int)),
        decreases entries@.len() - i,
    {
        assert(ev.take(i + 1).drop_last() =~= ev.take(i as int));
        let e = &entries[i];
        assert(ev[i as int] == e@);
        let t = entry_text(e);
        let tv = chars_of(t.as_str());
        if !is_blank(&tv) {
            out.push('[');
            append_str(&mut out, e.kind.as_str());
            append_str(&mut out, "] ");
            append_chars(&mut out, &tv);
            out.push('\n');
        }
        i = i + 1;
    }
    assert(ev.take(entries@.len() as int) =~= ev);
    string_of(&out)
}

/// The last of the first `n` entries with id `id` (a later entry with the
/// same id shadows an earlier one).
pub open spec fn last_with_id(es: Seq<EntryView>, id: Seq<char>, n: int) -> Option<int>
    decreases n,
{
    if n <= 0 {
        None
    } else if es[n - 1].id == id {
        Some(n - 1)
    } else {
        last_with_id(es, id, n - 1)
    }
}

/// The parent walk from `cur` ends (a missing id or a root) within `n`
/// steps.
pub open spec fn walk_ends(es: Seq<EntryView>, cur: Option<Seq<char>>, n: nat) -> bool
    decreases n,
{
    match cur {
        None => true,
        Some(id) => match last_with_id(es, id, es.len() as int) {
            None => true,
            Some(i) => n > 0 && walk_ends(es, es[i].parent, (n - 1) as nat),
        },
    }
}

/// The branch ending at `cur`, root first, walking at most `n` parents.
pub open spec fn chain(es: Seq<EntryView>, cur: Option<Seq<char>>, n: nat) -> Seq<EntryView>
    decreases n,
{
    match cur {
        None => Seq::empty(),
        Some(id) => match last_with_id(es, id, es.len() as int) {
            None => Seq::empty(),
            Some(i) => if n == 0 {
                Seq::empty()
            } else {
                chain(es, es[i].parent, (n - 1) as nat).push(es[i])
            },
        },
    }
}

/// The parent walk from the leaf ends: the tree has no cycle through it.
pub open spec fn branch_ok(es: Seq<EntryView>, leaf: Option<Seq<char>>) -> bool {
    exists|n: nat| walk_ends(es, leaf, n)
}

proof fn lemma_last_with_id(es: Seq<EntryView>, id: Seq<char>, n: int)
    requires
        n <= es.len(),
    ensures
        last_with_id(es, id, n) matches Some(i) ==> 0 <= i < n && es[i].id == id,
    decreases n,
{
    if n > 0 && es[n - 1].id != id {
        lemma_last_with_id(es, id, n - 1);
    }
}

/// More walking fuel does not change a finished walk.
proof fn lemma_chain_fuel(es: Seq<EntryView>, cur: Option<Seq<char>>, n: nat, m: nat)
    requires
        walk_ends(es, cur, n),
        n <= m,
    ensures
        chain(es, cur, n) == chain(es, cur, m),
        walk_ends(es, cur, m),
    decreases n,
{
    match cur {
        None => {},
        Some(id) => match last_with_id(es, id, es.len() as int) {
            None => {},
            Some(i) => {
                lemma_chain_fuel(es, es[i].parent, (n - 1) as nat, (m - 1) as nat);
            },
        },
    }
}

/// The active branch, root to leaf: the leaf's parent chain walked over
/// the entries (the last entry with an id stands for it).
pub open spec fn branch_of(es: Seq<EntryView>, leaf: Option<Seq<char>>) -> Seq<EntryView> {
    chain(es, leaf, choose|n: nat| walk_ends(es, leaf, n))
}

fn find_last(entries: &[EntryInfo], id: &[char]) -> (r: Option<usize>)
    ensures
        r matches Some(i) ==> last_with_id(entry_views(entries@), id@, entries@.len() as int) == Some(i as int),
        r is None ==> last_with_id(entry_views(entries@), id@, entries@.len() as int) is None,
{
    let ghost ev = entry_views(entries@);
    let mut n = entries.len();
    while n > 0
        invariant
            n <= entries@.len(),
            ev == entry_views(entries@),
            last_with_id(ev, id@, entries@.len() as int) == last_with_id(ev, id@, n as int),
        decreases n,
    {
        let e = chars_of(entries[n - 1].id.as_str());
        assert(ev[n - 1] == entries@[n - 1]@);
        if chars_eq(&e, id) {
            return Some(n - 1);
        }
        n = n - 1;
    }
    None
}

/// The active branch, root to leaf: the leaf's parent chain.
pub fn branch_entries(entries: &[EntryInfo], leaf_id: Option<&str>) -> (r: Vec<EntryInfo>)
    requires
        branch_ok(entry_views(entries@), opt_str(leaf_id)),
    ensures
        entry_views(r@) == branch_of(entry_views(entries@), opt_str(leaf_id)),
{
    let ghost ev = entry_views(entries@);
    let ghost n0 = choose|n: nat| walk_ends(ev, opt_str(leaf_id), n);
    let mut path: Vec<EntryInfo> = Vec::new();
    let mut cur: Option<Vec<char>> = match leaf_id {
        Some(l) => Some(chars_of(l)),
        None => None,
    };
    let ghost mut fuel: nat = n0;
    assert(entry_views(path@).reverse() =~= Seq::<EntryView>::empty());
    loop
        invariant
            ev == entry_views(entries@),
            walk_ends(ev, opt_chars(cur), fuel),
            chain(ev, opt_str(leaf_id), n0) == chain(ev, opt_chars(cur), fuel) + entry_views(path@).reverse(),
        ensures
            chain(ev, opt_str(leaf_id), n0) == entry_views(path@).reverse(),
        decreases fuel,
    {
        let id = match &cur {
            None => {
                assert(Seq::<EntryView>::empty() + entry_views(path@).reverse() =~= entry_views(path@).reverse());
                break;
            },
            Some(c) => c,
        };
        let i = match find_last(entries, id) {
            None => {
                assert(Seq::<EntryView>::empty() + entry_views(path@).reverse() =~= entry_views(path@).reverse());
                break;
            },
            Some(i) => i,
        };
        proof {
            lemma_last_with_id(ev, id@, ev.len() as int);
        }
        let e = copy_entry(&entries[i]);
        assert(ev[i as int] == entries@[i as int]@);
        let next = match &entries[i].parent {
            Some(p) => Some(chars_of(p.as_str())),
            None => None,
        };
        let ghost before = entry_views(path@);
        path.push(e);
        proof {
            assert(entry_views(path@) =~= before.push(ev[i as int]));
            assert(entry_views(path@).reverse() =~= seq![ev[i as int]] + before.reverse());
            fuel = (fuel - 1) as nat;
        }
        cur = next;
    }
    let mut out: Vec<EntryInfo> = Vec::new();
    let mut k = path.len();
    while k > 0
        invariant
            k <= path@.len(),
            entry_views(out@) == entry_views(path@).reverse().take(path@.len() - k),
        decreases k,
    {
        let ghost before = entry_views(out@);
        let c = copy_entry(&path[k - 1]);
        out.push(c);
        proof {
            let rv = entry_views(path@).reverse();
            assert(rv[path@.len() - k] == path@[k - 1]@);
            assert(entry_views(out@) =~= before.push(c@));
            assert(rv.take(path@.len() - k + 1) =~= rv.take(path@.len() - k).push(rv[path@.len() - k]));
        }
        k = k - 1;
    }
    proof {
        assert(entry_views(path@).reverse().take(path@.len() as int) =~= entry_views(path@).reverse());
        let m = choose|n: nat| walk_ends(ev, opt_str(leaf_id), n);
        if m <= n0 {
            lemma_chain_fuel(ev, opt_str(leaf_id), m, n0);
        } else {
            lemma_chain_fuel(ev, opt_str(leaf_id), n0, m);
        }
    }
    out
}

pub open spec fn opt_str(o: Option<&str>) -> Option<Seq<char>> {
    match o {
        Some(s) => Some(s@),
        None => None,
    }
}

pub open spec fn opt_chars(o: Option<Vec<char>>) -> Option<Seq<char>> {
    match o {
        Some(v) => Some(v@),
        None => None,
    }
}

/// An assistant or tool entry: the model's side of a turn.
pub open spec fn is_model_kind(k: Seq<char>) -> bool {
    k == "assistant"@ || k == "tool"@
}

/// Back from `i` over the turn's model output.
pub open spec fn back_over_model(b: Seq<EntryView>, i: int) -> int
    decreases i,
{
    if i > 0 && is_model_kind(b[i - 1].kind) {
        back_over_model(b, i - 1)
    } else {
        i
    }
}

/// Back from `i` over the turn's user run.
pub open spec fn back_over_user(b: Seq<EntryView>, i: int) -> int
    decreases i,
{
    if i > 0 && b[i - 1].kind == "user"@ {
        back_over_user(b, i - 1)
    } else {
        i
    }
}

/// The pause before the branch's latest turn, in whole seconds: from the
/// entry before the turn's first user entry to that entry; zero when the
/// turn starts the branch.
pub open spec fn idle_gap_of(b: Seq<EntryView>) -> u64 {
    let i = back_over_model(b, b.len() as int);
    if i == 0 {
        0
    } else {
        let j = back_over_user(b, i);
        if j == 0 {
            0
        } else {
            (if b[j].timestamp >= b[j - 1].timestamp {
                b[j].timestamp - b[j - 1].timestamp
            } else {
                0
            } / 1000) as u64
        }
    }
}

proof fn lemma_back_bounds(b: Seq<EntryView>, i: int)
    requires
        0 <= i <= b.len(),
    ensures
        0 <= back_over_model(b, i) <= i,
        0 <= back_over_user(b, i) <= i,
    decreases i,
{
    if i > 0 {
        lemma_back_bounds(b, i - 1);
    }
}

fn kind_is(e: &EntryInfo, k: &str) -> (r: bool)
    ensures
        r == (e@.kind == k@),
{
    chars_eq(&chars_of(e.kind.as_str()), &chars_of(k))
}

/// The branch ends in a turn: empty, or its last entry is the model's or
/// the user's (the input on which the gap is defined).
pub open spec fn ends_in_turn(b: Seq<EntryView>) -> bool {
    b.len() == 0 || is_model_kind(b.last().kind) || b.last().kind == "user"@
}

/// The idle gap before the latest turn, in seconds.
pub fn idle_gap_secs(all: &[EntryInfo], leaf_id: Option<&str>) -> (r: u64)
    requires
        branch_ok(entry_views(all@), opt_str(leaf_id)),
        ends_in_turn(branch_of(entry_views(all@), opt_str(leaf_id))),
    ensures
        r == idle_gap_of(branch_of(entry_views(all@), opt_str(leaf_id))),
{
    let branch = branch_entries(all, leaf_id);
    let ghost b = entry_views(branch@);
    let mut i = branch.len();
    assert(b.len() == branch@.len());
    while i > 0 && (kind_is(&branch[i - 1], "assistant") || kind_is(&branch[i - 1], "tool"))
        invariant
            i <= branch@.len(),
            b == entry_views(branch@),
            back_over_model(b, b.len() as int) == back_over_model(b, i as int),
        decreases i,
    {
        assert(b[i - 1] == branch@[i - 1]@);
        i = i - 1;
    }
    proof {
        if i > 0 {
            assert(b[i - 1] == branch@[i - 1]@);
        }
    }
    if i == 0 {
        return 0;
    }
    let ghost i0 = i;
    while i > 0 && kind_is(&branch[i - 1], "user")
        invariant
            i <= i0 <= branch@.len(),
            b == entry_views(branch@),
            back_over_user(b, i0 as int) == back_over_user(b, i as int),
        decreases i,
    {
        assert(b[i - 1] == branch@[i - 1]@);
        i = i - 1;
    }
    proof {
        if i > 0 {
            assert(b[i - 1] == branch@[i - 1]@);
        }
    }
    if i == 0 {
        return 0;
    }
    proof {
        lemma_back_bounds(b, b.len() as int);
        lemma_back_bounds(b, i0 as int);
        if i0 == b.len() {
            assert(!is_model_kind(b.last().kind));
            assert(b.last().kind == "user"@);
        }
    }
    assert(b[i as int] == branch@[i as int]@);
    assert(b[i - 1] == branch@[i - 1]@);
    branch[i].timestamp.saturating_sub(branch[i - 1].timestamp) / 1000
}

/// The entries of the given kinds the observer reads, in order.
pub open spec fn raw_only(es: Seq<EntryView>) -> Seq<EntryView>
    decreases es.len(),
{
    if es.len() == 0 {
        Seq::empty()
    } else if is_raw_kind(es.last().kind) {
        raw_only(es.drop_last()).push(es.last())
    } else {
        raw_only(es.drop_last())
    }
}

/// The first entry from `i` on with id `id`.
pub open spec fn first_with_id(b: Seq<EntryView>, id: Seq<char>, i: int) -> Option<int>
    decreases b.len() - i,
{
    if i < 0 || i >= b.len() {
        None
    } else if b[i].id == id {
        Some(i)
    } else {
        first_with_id(b, id, i + 1)
    }
}

/// The entries after the first one with id `id`; all of them when no
/// entry has it.
pub open spec fn after_id(b: Seq<EntryView>, id: Seq<char>) -> Seq<EntryView> {
    match first_with_id(b, id, 0) {
        Some(i) => b.skip(i + 1),
        None => b,
    }
}

/// The sum of the entries' token estimates.
pub open spec fn token_sum(es: Seq<EntryView>) -> int
    decreases es.len(),
{
    if es.len() == 0 {
        0
    } else {
        token_sum(es.drop_last()) + token_count_of(entry_text_of(es.last())) as int
    }
}

fn raw_filter(es: &[EntryInfo]) -> (r: Vec<EntryInfo>)
    ensures
        entry_views(r@) == raw_only(entry_views(es@)),
{
    let ghost ev = entry_views(es@);
    let mut out: Vec<EntryInfo> = Vec::new();
    let mut i: usize = 0;
    while i < es.len()
        invariant
            i <= es@.len(),
            ev == entry_views(es@),
            entry_views(out@) == raw_only(ev.take(i as int)),
        decreases es@.len() - i,
    {
        assert(ev.take(i + 1).drop_last() =~= ev.take(i as int));
        assert(ev[i as int] == es@[i as int]@);
        if is_raw(&es[i]) {
            let ghost before = entry_views(out@);
            let c = copy_entry(&es[i]);
            out.push(c);
            assert(entry_views(out@) =~= before.push(c@));
        }
        i = i + 1;
    }
    assert(ev.take(es@.len() as int) =~= ev);
    out
}

/// The index of the first entry with id `id`.
fn position_of(es: &[EntryInfo], id: &str) -> (r: Option<usize>)
    ensures
        r matches Some(i) ==> first_with_id(entry_views(es@), id@, 0) == Some(i as int) && i < es@.len(),
        r is None ==> first_with_id(entry_views(es@), id@, 0) is None,
{
    let ghost ev = entry_views(es@);
    let k = chars_of(id);
    let mut i: usize = 0;
    while i < es.len()
        invariant
            i <= es@.len(),
            ev == entry_views(es@),
            k@ == id@,
            first_with_id(ev, id@, 0) == first_with_id(ev, id@, i as int),
        decreases es@.len() - i,
    {
        assert(ev[i as int] == es@[i as int]@);
        if chars_eq(&chars_of(es[i].id.as_str()), &k) {
            return Some(i);
        }
        i = i + 1;
    }
    None
}

/// The entries after the first with id `id` (all when none has it).
fn after_position(es: &[EntryInfo], id: &str) -> (r: Vec<EntryInfo>)
    ensures
        entry_views(r@) == after_id(entry_views(es@), id@),
{
    let n = es.len();
    let start = match position_of(es, id) {
        Some(i) => i + 1,
        None => 0,
    };
    copy_from(es, start)
}

fn copy_from(es: &[EntryInfo], start: usize) -> (r: Vec<EntryInfo>)
    requires
        start <= es@.len(),
    ensures
        entry_views(r@) == entry_views(es@).skip(start as int),
{
    let mut out: Vec<EntryInfo> = Vec::new();
    let mut i = start;
    while i < es.len()
        invariant
            start <= i <= es@.len(),
            entry_views(out@) == entry_views(es@).subrange(start as int, i as int),
        decreases es@.len() - i,
    {
        let ghost before = entry_views(out@);
        let c = copy_entry(&es[i]);
        out.push(c);
        assert(entry_views(out@) =~= before.push(c@));
        assert(entry_views(es@)[i as int] == es@[i as int]@);
        assert(entry_views(es@).subrange(start as int, i + 1) =~= entry_views(es@).subrange(start as int, i as int).push(es@[i as int]@));
        i = i + 1;
    }
    assert(entry_views(es@).subrange(start as int, es@.len() as int) =~= entry_views(es@).skip(start as int));
    out
}

/// One buffered observer chunk: the observed text for a raw range, held in
/// memory until activation promotes it to the log.
#[derive(Debug)]
pub struct BufferedChunk {
    /// The first and last entry ids of the observed raw range.
    pub range: (String, String),
    /// The timestamp the cursor advances to on promotion.
    pub last_ts: u64,
    /// The observed text, already wrapped in its provenance group.
    pub text: String,
    pub tokens: u32,
}

/// The action a turn-end plan calls for.
#[derive(Debug, PartialEq, Eq)]
pub enum TurnEndAction {
    Observe { transcript: String },
    Reflect { level: u8 },
    Buffer { transcript: String },
    Done,
}

/// The plan's verdict, by value.
pub enum PlanView {
    Observe(Seq<char>),
    Reflect(u8),
    Buffer(Seq<char>),
    Done,
}

pub open spec fn action_view(a: TurnEndAction) -> PlanView {
    match a {
        TurnEndAction::Observe { transcript } => PlanView::Observe(transcript@),
        TurnEndAction::Reflect { level } => PlanView::Reflect(level),
        TurnEndAction::Buffer { transcript } => PlanView::Buffer(transcript@),
        TurnEndAction::Done => PlanView::Done,
    }
}

/// Per-session observational-memory state, owned by the agent loop: the
/// integer configuration, the record, the buffered chunks, and the buffer
/// cursor (the last entry a buffered run covered, keeping runs disjoint).
pub struct OmState {
    pub thresholds: OmThresholds,
    /// Pending tokens at which a buffered observer run fires.
    pub buffer_increment: u32,
    /// Raw tokens kept after activation.
    pub retention_floor: u32,
    pub record: OmRecord,
    pub buffered: Vec<BufferedChunk>,
    /// The last entry a buffered run covered: a new run covers only the
    /// entries after it.
    pub buffer_cursor: Option<String>,
    /// The log changed since the last assembled context.
    pub changed: bool,
}

impl OmState {
    /// The buffer cursor, as text.
    pub open spec fn buffer_cursor_of(&self) -> Option<Seq<char>> {
        opt_view(self.buffer_cursor)
    }

    /// A fresh state over a record: nothing buffered, no buffer cursor.
    pub fn new(thresholds: OmThresholds, buffer_increment: u32, retention_floor: u32, record: OmRecord) -> (s: Self)
        ensures
            s.thresholds == thresholds,
            s.buffer_increment == buffer_increment,
            s.retention_floor == retention_floor,
            s.record == record,
            s.buffered@.len() == 0,
            s.buffer_cursor_of() is None,
            !s.changed,
    {
        OmState {
            thresholds,
            buffer_increment,
            retention_floor,
            record,
            buffered: Vec::new(),
            buffer_cursor: None,
            changed: false,
        }
    }

    /// The cursor's entry id, if any.
    pub open spec fn cursor_id(&self) -> Option<Seq<char>> {
        match self.record.cursor {
            Some(c) => Some(c.entry_id@),
            None => None,
        }
    }

    /// The unobserved raw on the active branch: the raw entries after the
    /// cursor; without a cursor, the whole branch; with a cursor not on the
    /// branch (a branch switch), the branch's raw entries.
    pub open spec fn unobserved_of(&self, b: Seq<EntryView>) -> Seq<EntryView> {
        match self.cursor_id() {
            None => b,
            Some(c) => raw_only(after_id(b, c)),
        }
    }

    pub fn unobserved(&self, entries: &[EntryInfo], leaf_id: Option<&str>) -> (r: Vec<EntryInfo>)
        requires
            branch_ok(entry_views(entries@), opt_str(leaf_id)),
        ensures
            entry_views(r@) == self.unobserved_of(branch_of(entry_views(entries@), opt_str(leaf_id))),
    {
        let branch = branch_entries(entries, leaf_id);
        match &self.record.cursor {
            None => branch,
            Some(c) => {
                let after = after_position(&branch, c.entry_id.as_str());
                raw_filter(&after)
            },
        }
    }

    /// The raw entries not yet covered by a buffered run: after the buffer
    /// cursor, or the whole branch's when no run happened.
    pub open spec fn unbuffered_of(&self, b: Seq<EntryView>) -> Seq<EntryView> {
        match self.buffer_cursor_of() {
            None => raw_only(b),
            Some(c) => raw_only(after_id(b, c)),
        }
    }

    fn unbuffered(&self, entries: &[EntryInfo], leaf_id: Option<&str>) -> (r: Vec<EntryInfo>)
        requires
            branch_ok(entry_views(entries@), opt_str(leaf_id)),
        ensures
            entry_views(r@) == self.unbuffered_of(branch_of(entry_views(entries@), opt_str(leaf_id))),
    {
        let branch = branch_entries(entries, leaf_id);
        match &self.buffer_cursor {
            None => raw_filter(&branch),
            Some(c) => {
                let after = after_position(&branch, c.as_str());
                raw_filter(&after)
            },
        }
    }

    /// The entries' token estimate, summed.
    pub fn pending_tokens(&self, entries: &[EntryInfo]) -> (r: u32)
        requires
            token_sum(entry_views(entries@)) <= u32::MAX,
        ensures
            r == token_sum(entry_views(entries@)),
    {
        let ghost ev = entry_views(entries@);
        let mut sum: u32 = 0;
        let mut i: usize = 0;
        while i < entries.len()
            invariant
                i <= entries@.len(),
                ev == entry_views(entries@),
                token_sum(ev) <= u32::MAX,
                sum == token_sum(ev.take(i as int)),
            decreases entries@.len() - i,
        {
            assert(ev.take(i + 1).drop_last() =~= ev.take(i as int));
            assert(ev[i as int] == entries@[i as int]@);
            proof {
                lemma_token_sum_prefix(ev, i + 1);
            }
            let t = entry_text(&entries[i]);
            sum = sum + token_count(t.as_str());
            i = i + 1;
        }
        assert(ev.take(entries@.len() as int) =~= ev);
        sum
    }

    /// Whether the pending tokens reached the observer's threshold.
    pub fn activation_reached(&self, pending_tokens: u32) -> (r: bool)
        ensures
            r == (pending_tokens >= self.thresholds.observe_threshold_spec(self.record.observation_tokens)),
    {
        crate::om::should_observe(pending_tokens, self.record.observation_tokens, &self.thresholds)
    }
}

/// A prefix's token sum is at most the whole's.
proof fn lemma_token_sum_prefix(es: Seq<EntryView>, k: int)
    requires
        0 <= k <= es.len(),
    ensures
        token_sum(es.take(k)) <= token_sum(es),
    decreases es.len() - k,
{
    if k < es.len() {
        lemma_token_sum_prefix(es, k + 1);
        assert(es.take(k + 1).drop_last() =~= es.take(k));
    } else {
        assert(es.take(k) =~= es);
    }
}

/// The log the context carries: the frozen prefix and the suffix, or the
/// suffix alone once the prefix is demoted.
pub open spec fn live_log(r: OmRecord) -> Seq<char> {
    if r.prefix_demoted {
        r.active_observations@
    } else {
        r.frozen_prefix@ + r.active_observations@
    }
}

/// The overflow ladder: the prefix leaves the live log when the combined
/// log exceeds the reflection budget, and comes back once the suffix alone
/// is under it.
pub open spec fn demoted_after(r: OmRecord, reflect_threshold: u32) -> bool {
    if !r.prefix_demoted && token_count_of(live_log(r)) > reflect_threshold {
        true
    } else if r.prefix_demoted && token_count_of(r.active_observations@) < reflect_threshold {
        false
    } else {
        r.prefix_demoted
    }
}

/// Where a buffered run's transcript starts among the unobserved entries:
/// after the buffer cursor when it is among them.
pub open spec fn buffer_start(u: Seq<EntryView>, bc: Option<Seq<char>>) -> int {
    match bc {
        Some(id) => match first_with_id(u, id, 0) {
            Some(i) => i + 1,
            None => 0,
        },
        None => 0,
    }
}

/// The drop of a window's leading tool entries.
pub open spec fn drop_tools(s: Seq<EntryView>) -> Seq<EntryView>
    decreases s.len(),
{
    if s.len() > 0 && s[0].kind == "tool"@ {
        drop_tools(s.drop_first())
    } else {
        s
    }
}

/// How many head entries the window prunes: from `i`, the first count at
/// which the remaining tokens fall to the floor (all of them otherwise).
pub open spec fn keep_from(raw: Seq<EntryView>, running: int, floor: int, i: int) -> int
    decreases raw.len() - i,
{
    if i < 0 || i >= raw.len() {
        raw.len() as int
    } else {
        let t = token_count_of(entry_text_of(raw[i])) as int;
        let r = if running >= t { running - t } else { 0 };
        if r <= floor {
            i + 1
        } else {
            keep_from(raw, r, floor, i + 1)
        }
    }
}

impl OmState {
    /// The turn-end decision: reflect at the observation threshold, observe
    /// at activation, buffer at the increment (over the entries after the
    /// buffer cursor), else nothing.
    pub open spec fn plan_of(&self, u: Seq<EntryView>) -> PlanView {
        if self.record.observation_tokens >= self.thresholds.reflect_threshold {
            PlanView::Reflect(0)
        } else if self.record.pending_tokens >= self.thresholds.observe_threshold_spec(
            self.record.observation_tokens,
        ) {
            PlanView::Observe(transcript_of(u))
        } else if self.record.pending_tokens >= self.buffer_increment {
            PlanView::Buffer(transcript_of(u.skip(buffer_start(u, self.buffer_cursor_of()))))
        } else {
            PlanView::Done
        }
    }

    /// The raw entries after the cursor on the branch.
    pub open spec fn window_raw(&self, b: Seq<EntryView>) -> Seq<EntryView> {
        raw_only(
            match self.cursor_id() {
                Some(c) => after_id(b, c),
                None => b,
            },
        )
    }

    /// The raw window: the raw entries after the cursor on the branch,
    /// pruned from the head to the retention floor, never starting at a
    /// tool result.
    pub open spec fn window_of(&self, b: Seq<EntryView>) -> Seq<EntryView> {
        let raw = self.window_raw(b);
        let total = token_sum(raw);
        if total > self.retention_floor {
            drop_tools(raw.skip(keep_from(raw, total, self.retention_floor as int, 0)))
        } else {
            raw
        }
    }

    /// The overflow ladder for a frozen prefix: demote it when the combined
    /// log exceeds the reflection budget, re-admit it once the suffix alone
    /// is under the budget.
    pub fn maintain_prefix_budget(&mut self)
        ensures
            final(self).record == (OmRecord {
                prefix_demoted: demoted_after(old(self).record, old(self).thresholds.reflect_threshold),
                ..old(self).record
            }),
            final(self).thresholds == old(self).thresholds,
            final(self).buffer_increment == old(self).buffer_increment,
            final(self).retention_floor == old(self).retention_floor,
            final(self).buffered == old(self).buffered,
            final(self).buffer_cursor == old(self).buffer_cursor,
            final(self).changed == old(self).changed,
    {
        let live = self.record.live_observations();
        let combined = token_count(live.as_str());
        if !self.record.prefix_demoted && combined > self.thresholds.reflect_threshold {
            self.record.prefix_demoted = true;
        } else if self.record.prefix_demoted && token_count(self.record.active_observations.as_str())
            < self.thresholds.reflect_threshold {
            self.record.prefix_demoted = false;
        }
    }

    /// The turn-end decision over the unobserved entries.
    pub fn plan(&mut self, unobserved: &[EntryInfo]) -> (r: TurnEndAction)
        ensures
            action_view(r) == old(self).plan_of(entry_views(unobserved@)),
            *final(self) == *old(self),
    {
        if self.record.observation_tokens >= self.thresholds.reflect_threshold {
            return TurnEndAction::Reflect { level: 0 };
        }
        if self.activation_reached(self.record.pending_tokens) {
            return TurnEndAction::Observe { transcript: transcript(unobserved) };
        }
        if self.record.pending_tokens >= self.buffer_increment {
            let n = unobserved.len();
            let start = match &self.buffer_cursor {
                Some(id) => match position_of(unobserved, id.as_str()) {
                    Some(i) => i + 1,
                    None => 0,
                },
                None => 0,
            };
            let tail = copy_from(unobserved, start);
            return TurnEndAction::Buffer { transcript: transcript(&tail) };
        }
        TurnEndAction::Done
    }

    /// The reflector prompt for a level: the frozen variant when a frozen
    /// prefix is present; the prefix never enters the prompt body.
    pub fn reflector_prompt(&self, level: u8) -> (r: String)
        requires
            strip_ok(self.record.active_observations@),
        ensures
            r@ == if self.record.frozen_prefix@.len() == 0 {
                reflector_prompt(self.record.active_observations@, level)
            } else {
                frozen_head() + self.record.frozen_prefix@ + frozen_note() + reflector_prompt(
                    self.record.active_observations@,
                    level,
                )
            },
    {
        let source = self.record.reflect_source();
        if chars_of(self.record.frozen_prefix.as_str()).len() == 0 {
            crate::om::reflector::build_reflector_prompt(source, level)
        } else {
            crate::om::reflector::build_reflector_prompt_frozen(self.record.frozen_prefix.as_str(), source, level)
        }
    }

    /// The raw window over already-read entries: the raw entries after
    /// the cursor on the active branch, pruned to the retention floor from
    /// the head, never cutting a tool result from its call.
    pub fn raw_window_from(&self, entries: &[EntryInfo], leaf_id: Option<&str>) -> (r: Vec<EntryInfo>)
        requires
            branch_ok(entry_views(entries@), opt_str(leaf_id)),
            token_sum(self.window_raw(branch_of(entry_views(entries@), opt_str(leaf_id)))) <= u64::MAX,
        ensures
            entry_views(r@) == self.window_of(branch_of(entry_views(entries@), opt_str(leaf_id))),
    {
        let branch = branch_entries(entries, leaf_id);
        let ghost b = entry_views(branch@);
        let unobs = match &self.record.cursor {
            Some(c) => after_position(&branch, c.entry_id.as_str()),
            None => copy_from(&branch, 0),
        };
        assert(b.skip(0) =~= b);
        let raw = raw_filter(&unobs);
        let ghost rv = entry_views(raw@);
        let floor = self.retention_floor as u64;
        let mut counts: Vec<u64> = Vec::new();
        let mut total: u64 = 0;
        let mut i: usize = 0;
        while i < raw.len()
            invariant
                i <= raw@.len(),
                rv == entry_views(raw@),
                token_sum(rv) <= u64::MAX,
                total == token_sum(rv.take(i as int)),
                counts@.len() == i,
                forall|k: int| 0 <= k < i ==> #[trigger] counts@[k] == token_count_of(entry_text_of(rv[k])),
            decreases raw@.len() - i,
        {
            assert(rv.take(i + 1).drop_last() =~= rv.take(i as int));
            assert(rv[i as int] == raw@[i as int]@);
            proof {
                lemma_token_sum_prefix(rv, i + 1);
            }
            let c = token_count(entry_text(&raw[i]).as_str()) as u64;
            counts.push(c);
            total = total + c;
            i = i + 1;
        }
        assert(rv.take(raw@.len() as int) =~= rv);
        if total <= floor {
            return raw;
        }
        let mut keep: usize = 0;
        let mut running: u64 = total;
        let mut j: usize = 0;
        while j < raw.len()
            invariant_except_break
                keep_from(rv, total as int, floor as int, 0) == keep_from(rv, running as int, floor as int, j as int),
                keep == j,
            invariant
                j <= raw@.len() == rv.len() == counts@.len(),
                forall|k: int| 0 <= k < rv.len() ==> #[trigger] counts@[k] == token_count_of(entry_text_of(rv[k])),
            ensures
                keep_from(rv, total as int, floor as int, 0) == keep as int,
                keep <= rv.len(),
            decreases raw@.len() - j,
        {
            running = running.saturating_sub(counts[j]);
            keep = j + 1;
            if running <= floor {
                break;
            }
            j = j + 1;
        }
        let pruned = copy_from(&raw, keep);
        let mut d: usize = 0;
        assert(entry_views(pruned@).skip(0) =~= entry_views(pruned@));
        while d < pruned.len() && kind_is(&pruned[d], "tool")
            invariant
                d <= pruned@.len(),
                drop_tools(entry_views(pruned@)) == drop_tools(entry_views(pruned@).skip(d as int)),
            decreases pruned@.len() - d,
        {
            assert(entry_views(pruned@).skip(d as int)[0] == pruned@[d as int]@);
            assert(entry_views(pruned@).skip(d as int).drop_first() =~= entry_views(pruned@).skip(d + 1));
            d = d + 1;
        }
        proof {
            if d < pruned@.len() {
                assert(entry_views(pruned@).skip(d as int)[0] == pruned@[d as int]@);
            }
        }
        copy_from(&pruned, d)
    }
}

pub open spec fn chunk_tokens(cs: Seq<BufferedChunk>) -> Seq<u32> {
    cs.map_values(|c: BufferedChunk| c.tokens)
}

/// How many chunks activation promotes: from `i`, the first count whose
/// (saturating) token sum reaches `remove`; all of them otherwise.
pub open spec fn promote_count(tokens: Seq<u32>, remove: int, i: int, cum: int) -> int
    decreases tokens.len() - i,
{
    if i < 0 || i >= tokens.len() {
        tokens.len() as int
    } else {
        let c = if cum + tokens[i] > u32::MAX { u32::MAX as int } else { cum + tokens[i] };
        if c >= remove {
            i + 1
        } else {
            promote_count(tokens, remove, i + 1, c)
        }
    }
}

/// The sum of the token counts.
pub open spec fn u32_sum(ts: Seq<u32>) -> int
    decreases ts.len(),
{
    if ts.len() == 0 {
        0
    } else {
        u32_sum(ts.drop_last()) + ts.last()
    }
}

/// The log after appending each chunk's text after its own boundary.
pub open spec fn appended_all(log: Seq<char>, now: Seq<char>, cs: Seq<BufferedChunk>) -> Seq<char>
    decreases cs.len(),
{
    if cs.len() == 0 {
        log
    } else {
        appended_observation(appended_all(log, now, cs.drop_last()), now, cs.last().text@)
    }
}

/// The chunks activation would promote now: none when nothing is buffered
/// or the pending raw is already within the retention floor.
pub open spec fn promoted(st: &OmState) -> int {
    let tokens = chunk_tokens(st.buffered@);
    let remove = projected_removal(tokens, st.retention_floor as int, st.record.pending_tokens as int);
    if tokens.len() == 0 || remove == 0 {
        0
    } else {
        promote_count(tokens, remove, 0, 0)
    }
}

proof fn lemma_promote_count(tokens: Seq<u32>, remove: int, i: int, cum: int)
    requires
        0 <= i <= tokens.len(),
    ensures
        i < tokens.len() ==> i < promote_count(tokens, remove, i, cum) <= tokens.len(),
        i == tokens.len() ==> promote_count(tokens, remove, i, cum) == tokens.len(),
    decreases tokens.len() - i,
{
    if i < tokens.len() {
        let c = if cum + tokens[i] > u32::MAX { u32::MAX as int } else { cum + tokens[i] };
        lemma_promote_count(tokens, remove, i + 1, c);
    }
}

proof fn lemma_u32_sum_split(ts: Seq<u32>, k: int)
    requires
        0 <= k <= ts.len(),
    ensures
        u32_sum(ts) == u32_sum(ts.take(k)) + u32_sum(ts.skip(k)),
    decreases ts.len(),
{
    if ts.len() == k {
        assert(ts.take(k) =~= ts);
        assert(ts.skip(k) =~= Seq::<u32>::empty());
    } else {
        lemma_u32_sum_split(ts.drop_last(), k);
        assert(ts.drop_last().take(k) =~= ts.take(k));
        assert(ts.skip(k).drop_last() =~= ts.drop_last().skip(k));
    }
}

proof fn lemma_u32_sum_nonneg(ts: Seq<u32>)
    ensures
        u32_sum(ts) >= 0,
    decreases ts.len(),
{
    if ts.len() > 0 {
        lemma_u32_sum_nonneg(ts.drop_last());
    }
}

fn chunk_token_list(buffered: &Vec<BufferedChunk>) -> (r: Vec<ChunkTokens>)
    ensures
        chunk_values(r@) == chunk_tokens(buffered@),
{
    let ghost tokens = chunk_tokens(buffered@);
    let mut chunks: Vec<ChunkTokens> = Vec::new();
    let mut i: usize = 0;
    while i < buffered.len()
        invariant
            i <= buffered@.len(),
            tokens == chunk_tokens(buffered@),
            chunk_values(chunks@) == tokens.take(i as int),
        decreases buffered@.len() - i,
    {
        let ghost before = chunk_values(chunks@);
        let c = ChunkTokens(buffered[i].tokens);
        chunks.push(c);
        assert(chunk_values(chunks@) =~= before.push(c.0));
        assert(tokens.take(i + 1) =~= tokens.take(i as int).push(tokens[i as int]));
        i = i + 1;
    }
    assert(tokens.take(buffered@.len() as int) =~= tokens);
    chunks
}

fn count_promoted(buffered: &Vec<BufferedChunk>, remove: u32) -> (r: usize)
    requires
        buffered@.len() > 0,
    ensures
        r as int == promote_count(chunk_tokens(buffered@), remove as int, 0, 0),
        0 < r <= buffered@.len(),
{
    let ghost tokens = chunk_tokens(buffered@);
    let n = buffered.len();
    let mut count: usize = 0;
    let mut cumulative: u32 = 0;
    let mut j: usize = 0;
    while j < n
        invariant_except_break
            promote_count(tokens, remove as int, 0, 0) == promote_count(tokens, remove as int, j as int, cumulative as int),
            count == j,
        invariant
            n == buffered@.len() == tokens.len(),
            tokens == chunk_tokens(buffered@),
            j <= n,
        ensures
            promote_count(tokens, remove as int, 0, 0) == count as int,
        decreases n - j,
    {
        cumulative = cumulative.saturating_add(buffered[j].tokens);
        count = count + 1;
        if cumulative >= remove {
            break;
        }
        j = j + 1;
    }
    proof {
        lemma_promote_count(tokens, remove as int, 0, 0);
    }
    count
}

fn token_total(cs: &Vec<BufferedChunk>) -> (r: u32)
    requires
        u32_sum(chunk_tokens(cs@)) <= u32::MAX,
    ensures
        r == u32_sum(chunk_tokens(cs@)),
{
    let ghost ts = chunk_tokens(cs@);
    let mut total: u32 = 0;
    let mut t: usize = 0;
    while t < cs.len()
        invariant
            t <= cs@.len(),
            ts == chunk_tokens(cs@),
            u32_sum(ts) <= u32::MAX,
            total == u32_sum(ts.take(t as int)),
        decreases cs@.len() - t,
    {
        assert(ts.take(t + 1).drop_last() =~= ts.take(t as int));
        proof {
            lemma_u32_sum_split(ts, t + 1);
            lemma_u32_sum_nonneg(ts.skip(t + 1));
        }
        total = total + cs[t].tokens;
        t = t + 1;
    }
    assert(ts.take(cs@.len() as int) =~= ts);
    total
}

/// The record after appending the first `count` chunks' texts and moving
/// the cursor to the last one's range end.
fn append_chunks(record: &mut OmRecord, chunks: &Vec<BufferedChunk>, count: usize, now: &str)
    requires
        0 < count <= chunks@.len(),
    ensures
        final(record).active_observations@ == appended_all(old(record).active_observations@, now@, chunks@.take(count as int)),
        final(record).cursor matches Some(c) && c.entry_id@ == chunks@[count - 1].range.1@ && c.timestamp == chunks@[count - 1].last_ts,
        final(record).frozen_prefix == old(record).frozen_prefix,
        final(record).generation == old(record).generation,
        final(record).prefix_demoted == old(record).prefix_demoted,
        final(record).observation_tokens == old(record).observation_tokens,
        final(record).pending_tokens == old(record).pending_tokens,
{
    let ghost r0 = *old(record);
    let mut q: usize = 0;
    assert(chunks@.take(0) =~= Seq::<BufferedChunk>::empty());
    while q < count
        invariant
            0 < count <= chunks@.len(),
            q <= count,
            record.active_observations@ == appended_all(r0.active_observations@, now@, chunks@.take(q as int)),
            q > 0 ==> (record.cursor matches Some(c) && c.entry_id@ == chunks@[q - 1].range.1@ && c.timestamp
                == chunks@[q - 1].last_ts),
            record.frozen_prefix == r0.frozen_prefix,
            record.generation == r0.generation,
            record.prefix_demoted == r0.prefix_demoted,
            record.observation_tokens == r0.observation_tokens,
            record.pending_tokens == r0.pending_tokens,
        decreases count - q,
    {
        assert(chunks@.take(q + 1).drop_last() =~= chunks@.take(q as int));
        let next = append_observation(record.active_observations.as_str(), now, chunks[q].text.as_str());
        record.active_observations = next;
        record.cursor = Some(Cursor { entry_id: chunks[q].range.1.clone(), timestamp: chunks[q].last_ts });
        q = q + 1;
    }
}

impl OmState {
    /// Activation (no model call): promote the buffered chunks up to the
    /// boundary that lands the remaining raw at or below the retention
    /// floor, leaving later chunks buffered; the cursor advances to the
    /// last promoted range's end. `false` when there is nothing to promote;
    /// `true` when the record changed and must be saved.
    pub fn promote(&mut self, now: &str) -> (r: bool)
        requires
            old(self).buffered@.len() <= u32::MAX,
            u32_sum(chunk_tokens(old(self).buffered@).skip(promoted(&*old(self)))) <= u32::MAX,
        ensures
            r == (promoted(&*old(self)) > 0),
            !r ==> *final(self) == *old(self),
            r ==> {
                let k = promoted(&*old(self));
                let last = old(self).buffered@[k - 1];
                let log = appended_all(old(self).record.active_observations@, now@, old(self).buffered@.take(k));
                &&& final(self).record.active_observations@ == log
                &&& final(self).record.cursor matches Some(c) && c.entry_id@ == last.range.1@ && c.timestamp == last.last_ts
                &&& final(self).record.observation_tokens == token_count_of(log)
                &&& final(self).record.pending_tokens == u32_sum(chunk_tokens(old(self).buffered@).skip(k))
                &&& final(self).record.frozen_prefix == old(self).record.frozen_prefix
                &&& final(self).record.generation == old(self).record.generation
                &&& final(self).record.prefix_demoted == old(self).record.prefix_demoted
                &&& final(self).buffered@ == old(self).buffered@.skip(k)
                &&& final(self).changed
                &&& final(self).thresholds == old(self).thresholds
                &&& final(self).buffer_increment == old(self).buffer_increment
                &&& final(self).retention_floor == old(self).retention_floor
                &&& final(self).buffer_cursor == old(self).buffer_cursor
            },
    {
        if self.buffered.len() == 0 {
            return false;
        }
        let chunks = chunk_token_list(&self.buffered);
        let remove = projected_message_removal(&chunks, self.retention_floor, self.record.pending_tokens);
        if remove == 0 {
            return false;
        }
        let count = count_promoted(&self.buffered, remove);
        let ghost old_chunks = self.buffered@;
        append_chunks(&mut self.record, &self.buffered, count, now);
        self.record.observation_tokens = token_count(self.record.active_observations.as_str());
        let rest = self.buffered.split_off(count);
        proof {
            assert(chunk_tokens(rest@) =~= chunk_tokens(old_chunks).skip(count as int));
            assert(rest@ =~= old_chunks.skip(count as int));
        }
        self.record.pending_tokens = token_total(&rest);
        self.buffered = rest;
        self.changed = true;
        true
    }
}

/// The range text of the entries: the first id, a colon, the last id.
pub open spec fn range_text(u: Seq<EntryView>) -> Seq<char> {
    u[0].id + seq![':'] + u.last().id
}

/// The observation wrapped in its provenance group over the entries.
pub open spec fn observation_group(u: Seq<EntryView>, obs: Seq<char>) -> Seq<char> {
    wrapped(obs, range_text(u), group_id_of(obs), None)
}

/// The overflow ladder over the log's parts.
pub open spec fn ladder(demoted: bool, prefix: Seq<char>, active: Seq<char>, reflect_threshold: u32) -> bool {
    let live = if demoted { active } else { prefix + active };
    if !demoted && token_count_of(live) > reflect_threshold {
        true
    } else if demoted && token_count_of(active) < reflect_threshold {
        false
    } else {
        demoted
    }
}

/// The suffix a reflection commits: the reflector's groups as they are,
/// or its whole output as one reflection group over the source's span.
pub open spec fn reflected_suffix(source: Seq<char>, obs: Seq<char>) -> Seq<char> {
    if groups_of(obs).len() == 0 {
        wrapped(
            obs,
            combined(groups_of(source).map_values(|g: GroupSpec| g.range)),
            group_id_of(obs),
            Some("reflection"@),
        )
    } else {
        obs
    }
}

/// Nothing but the record's named parts may differ.
pub open spec fn same_config(o: &OmState, n: &OmState) -> bool {
    &&& n.thresholds == o.thresholds
    &&& n.buffer_increment == o.buffer_increment
    &&& n.retention_floor == o.retention_floor
}

/// An observation applied over the unobserved entries `u`: appended to
/// the log after a boundary, the cursor past `u`, nothing pending.
pub open spec fn observed(o: &OmState, n: &OmState, u: Seq<EntryView>, obs: Seq<char>, now: Seq<char>) -> bool {
    if u.len() == 0 {
        *n == *o
    } else {
        let log = appended_observation(o.record.active_observations@, now, observation_group(u, obs));
        &&& n.record.active_observations@ == log
        &&& n.record.cursor matches Some(c) && c.entry_id@ == u.last().id && c.timestamp == u.last().timestamp
        &&& n.record.observation_tokens == token_count_of(log)
        &&& n.record.pending_tokens == 0
        &&& n.record.frozen_prefix == o.record.frozen_prefix
        &&& n.record.generation == o.record.generation
        &&& n.record.prefix_demoted == o.record.prefix_demoted
        &&& n.changed
        &&& n.buffered == o.buffered
        &&& n.buffer_cursor == o.buffer_cursor
        &&& same_config(o, n)
    }
}

/// A buffered run over the not-yet-buffered entries `u`: one more chunk
/// over their range, the buffer cursor past them; the record untouched.
pub open spec fn buffer_ran(o: &OmState, n: &OmState, u: Seq<EntryView>, obs: Seq<char>) -> bool {
    if u.len() == 0 {
        *n == *o
    } else {
        let c = n.buffered@.last();
        &&& n.buffered@.len() == o.buffered@.len() + 1
        &&& n.buffered@.drop_last() == o.buffered@
        &&& c.range.0@ == u[0].id
        &&& c.range.1@ == u.last().id
        &&& c.last_ts == u.last().timestamp
        &&& c.text@ == observation_group(u, obs)
        &&& c.tokens == token_count_of(obs)
        &&& opt_view(n.buffer_cursor) == Some(u.last().id)
        &&& n.record == o.record
        &&& n.changed == o.changed
        &&& same_config(o, n)
    }
}

/// A reflection committed: the new suffix, the next generation, the
/// ladder re-checked; the prefix and cursor untouched.
pub open spec fn reflected(o: &OmState, n: &OmState, obs: Seq<char>) -> bool {
    let sfx = reflected_suffix(o.record.active_observations@, obs);
    &&& n.record.active_observations@ == sfx
    &&& n.record.generation == o.record.generation + 1
    &&& n.record.observation_tokens == token_count_of(sfx)
    &&& n.record.prefix_demoted == ladder(
        o.record.prefix_demoted,
        o.record.frozen_prefix@,
        sfx,
        o.thresholds.reflect_threshold,
    )
    &&& n.record.frozen_prefix == o.record.frozen_prefix
    &&& n.record.cursor == o.record.cursor
    &&& n.record.pending_tokens == o.record.pending_tokens
    &&& n.changed
    &&& n.buffered == o.buffered
    &&& n.buffer_cursor == o.buffer_cursor
    &&& same_config(o, n)
}

/// A reflector output the reflection accepts: not degenerate, not blank,
/// and smaller than the source by the token estimate.
pub open spec fn reflection_accepted(source: Seq<char>, obs: Seq<char>, degenerate: bool) -> bool {
    !degenerate && trim(obs).len() > 0 && token_count_of(obs) < token_count_of(source)
}

impl OmState {
    /// Apply one observation over the unobserved entries; `true` when the
    /// record changed and must be saved.
    fn apply_observation(&mut self, entries: &[EntryInfo], leaf_id: Option<&str>, observations: &str, now: &str) -> (r: bool)
        requires
            branch_ok(entry_views(entries@), opt_str(leaf_id)),
        ensures
            observed(&*old(self), &*final(self), old(self).unobserved_of(branch_of(entry_views(entries@), opt_str(leaf_id))), observations@, now@),
            r == (old(self).unobserved_of(branch_of(entry_views(entries@), opt_str(leaf_id))).len() > 0),
    {
        let u = self.unobserved(entries, leaf_id);
        let ghost uv = entry_views(u@);
        let n = u.len();
        if n == 0 {
            return false;
        }
        assert(uv[0] == u@[0]@);
        assert(uv[n - 1] == u@[n - 1]@);
        let mut range: Vec<char> = chars_of(u[0].id.as_str());
        range.push(':');
        append_str(&mut range, u[n - 1].id.as_str());
        let range_s = string_of(&range);
        let id = generate_group_id(observations);
        let w = wrap_in_observation_group(observations, range_s.as_str(), id.as_str(), None);
        assert(range_s@ == range_text(uv));
        assert(w@ == observation_group(uv, observations@));
        let log = append_observation(self.record.active_observations.as_str(), now, w.as_str());
        self.record.active_observations = log;
        self.record.cursor = Some(Cursor { entry_id: u[n - 1].id.clone(), timestamp: u[n - 1].timestamp });
        self.record.observation_tokens = token_count(self.record.active_observations.as_str());
        self.record.pending_tokens = 0;
        self.changed = true;
        assert(self.record.cursor.unwrap().entry_id@ == uv.last().id);
        assert(self.record.active_observations@ == appended_observation(old(self).record.active_observations@, now@, observation_group(uv, observations@)));
        assert(same_config(&*old(self), &*self));
        true
    }

    /// Apply one buffered observation over the entries no earlier run
    /// covered: a new chunk, held in memory until activation.
    fn apply_buffer(&mut self, entries: &[EntryInfo], leaf_id: Option<&str>, observations: &str)
        requires
            branch_ok(entry_views(entries@), opt_str(leaf_id)),
        ensures
            buffer_ran(&*old(self), &*final(self), old(self).unbuffered_of(branch_of(entry_views(entries@), opt_str(leaf_id))), observations@),
    {
        let u = self.unbuffered(entries, leaf_id);
        let ghost uv = entry_views(u@);
        let n = u.len();
        if n == 0 {
            return;
        }
        assert(uv[0] == u@[0]@);
        assert(uv[n - 1] == u@[n - 1]@);
        let mut range: Vec<char> = chars_of(u[0].id.as_str());
        range.push(':');
        append_str(&mut range, u[n - 1].id.as_str());
        let range_s = string_of(&range);
        let id = generate_group_id(observations);
        let w = wrap_in_observation_group(observations, range_s.as_str(), id.as_str(), None);
        assert(w@ == observation_group(uv, observations@));
        let chunk = BufferedChunk {
            range: (u[0].id.clone(), u[n - 1].id.clone()),
            last_ts: u[n - 1].timestamp,
            text: w,
            tokens: token_count(observations),
        };
        let ghost before = self.buffered@;
        self.buffered.push(chunk);
        assert(self.buffered@.drop_last() =~= before);
        self.buffer_cursor = Some(u[n - 1].id.clone());
        assert(self.buffered@.last().range.0@ == uv[0].id);
        assert(self.buffered@.last().range.1@ == uv.last().id);
        assert(self.buffered@.last().text@ == observation_group(uv, observations@));
        assert(opt_view(self.buffer_cursor) == Some(uv.last().id));
    }

    /// Commit a completed turn-end action with the parsed model output: an
    /// observation or a buffered run is applied unless the output is
    /// degenerate or blank, then the action is done; a reflection that is
    /// accepted replaces the suffix, else a clean completion escalates the
    /// level (up to 4, then gives up) and anything else leaves the action
    /// to retry. `true` when the record changed and must be saved.
    pub fn commit(
        &mut self,
        action: &mut TurnEndAction,
        observations: &str,
        degenerate: bool,
        completed: bool,
        clean: bool,
        entries: &[EntryInfo],
        leaf_id: Option<&str>,
        now: &str,
    ) -> (saved: bool)
        requires
            branch_ok(entry_views(entries@), opt_str(leaf_id)),
            *old(action) is Reflect && reflection_accepted(old(self).record.active_observations@, observations@, degenerate)
                ==> groups_ok(observations@) && groups_ok(old(self).record.active_observations@)
                && old(self).record.generation < u32::MAX,
        ensures
            ({
                let b = branch_of(entry_views(entries@), opt_str(leaf_id));
                let applies = !degenerate && trim(observations@).len() > 0;
                match *old(action) {
                    TurnEndAction::Observe { .. } => {
                        &&& *final(action) == TurnEndAction::Done
                        &&& applies ==> observed(&*old(self), &*final(self), old(self).unobserved_of(b), observations@, now@)
                        &&& !applies ==> *final(self) == *old(self)
                        &&& saved == (applies && old(self).unobserved_of(b).len() > 0)
                    },
                    TurnEndAction::Buffer { .. } => {
                        &&& *final(action) == TurnEndAction::Done
                        &&& applies ==> buffer_ran(&*old(self), &*final(self), old(self).unbuffered_of(b), observations@)
                        &&& !applies ==> *final(self) == *old(self)
                        &&& !saved
                    },
                    TurnEndAction::Reflect { level } => {
                        if reflection_accepted(old(self).record.active_observations@, observations@, degenerate) {
                            &&& reflected(&*old(self), &*final(self), observations@)
                            &&& *final(action) == TurnEndAction::Done
                            &&& saved
                        } else {
                            &&& *final(self) == *old(self)
                            &&& !saved
                            &&& *final(action) == if completed && clean {
                                if level < 4 {
                                    TurnEndAction::Reflect { level: (level + 1) as u8 }
                                } else {
                                    TurnEndAction::Done
                                }
                            } else {
                                *old(action)
                            }
                        }
                    },
                    TurnEndAction::Done => *final(action) == TurnEndAction::Done && *final(self) == *old(self) && !saved,
                }
            }),
    {
        let applies = !degenerate && !crate::text::is_blank(&chars_of(observations));
        match action {
            TurnEndAction::Observe { .. } => {
                let mut saved = false;
                if applies {
                    saved = self.apply_observation(entries, leaf_id, observations, now);
                }
                *action = TurnEndAction::Done;
                saved
            },
            TurnEndAction::Buffer { .. } => {
                if applies {
                    self.apply_buffer(entries, leaf_id, observations);
                }
                *action = TurnEndAction::Done;
                false
            },
            TurnEndAction::Reflect { level } => {
                let accepted = applies && crate::om::validate_compression(
                    self.record.active_observations.as_str(),
                    observations,
                );
                if accepted {
                    let ghost o = *old(self);
                    let source = self.record.active_observations.clone();
                    let own = parse_observation_groups(observations);
                    let suffix = if own.len() == 0 {
                        let src_groups = parse_observation_groups(source.as_str());
                        let span = combine_group_ranges(&src_groups);
                        let id = generate_group_id(observations);
                        proof {
                            assert(crate::om::groups::ranges_of(src_groups@) =~= groups_of(source@).map_values(
                                |g: GroupSpec| g.range,
                            ));
                        }
                        wrap_in_observation_group(observations, span.as_str(), id.as_str(), Some("reflection"))
                    } else {
                        String::from_str(observations)
                    };
                    self.record.active_observations = suffix;
                    self.record.generation = self.record.generation + 1;
                    self.record.observation_tokens = token_count(self.record.active_observations.as_str());
                    self.maintain_prefix_budget();
                    self.changed = true;
                    *action = TurnEndAction::Done;
                    true
                } else {
                    if completed && clean {
                        if *level < 4 {
                            *level = *level + 1;
                        } else {
                            *action = TurnEndAction::Done;
                        }
                    }
                    false
                }
            },
            TurnEndAction::Done => false,
        }
    }
}


/// The index of the first group from `i` on with id `id`.
pub open spec fn first_group(gs: Seq<GroupSpec>, id: Seq<char>, i: int) -> Option<int>
    decreases gs.len() - i,
{
    if i < 0 || i >= gs.len() {
        None
    } else if gs[i].id == id {
        Some(i)
    } else {
        first_group(gs, id, i + 1)
    }
}

/// A range's first start and last end: the part before the first colon
/// of its first non-blank comma segment, the part after the last colon of
/// its last one; `None` when it has no segment.
pub open spec fn range_ends(range: Seq<char>) -> Option<(Seq<char>, Seq<char>)> {
    let segs = trimmed_nonempty(split(range, ','));
    if segs.len() == 0 {
        None
    } else {
        Some((split(segs[0], ':')[0], split(segs.last(), ':').last()))
    }
}

/// The entries a span covers: from the first with the start id through
/// the first with the end id (through the last entry when none has it).
pub open spec fn span_of(es: Seq<EntryView>, start: Seq<char>, end: Seq<char>) -> Option<(int, int)> {
    match first_with_id(es, start, 0) {
        None => None,
        Some(si) => Some(
            (
                si,
                match first_with_id(es, end, 0) {
                    Some(j) => j + 1,
                    None => es.len() as int,
                },
            ),
        ),
    }
}

/// An entry's text cut at 200 characters.
pub open spec fn text_preview(t: Seq<char>) -> Seq<char> {
    if t.len() <= 200 {
        t
    } else {
        t.take(200)
    }
}

/// One recalled entry: its id, kind and text preview on a line.
pub open spec fn recall_line(e: EntryView) -> Seq<char> {
    e.id + seq![' '] + e.kind + seq![' '] + text_preview(entry_text_of(e)) + seq!['\n']
}

/// The recalled entries, one line each.
pub open spec fn recall_lines(es: Seq<EntryView>) -> Seq<char>
    decreases es.len(),
{
    if es.len() == 0 {
        Seq::empty()
    } else {
        recall_lines(es.drop_last()) + recall_line(es.last())
    }
}

pub open spec fn opt_entries(o: Option<&[EntryInfo]>) -> Option<Seq<EntryView>> {
    match o {
        Some(s) => Some(entry_views(s@)),
        None => None,
    }
}

/// Where the recall reads the entries: the span of the named group's range
/// among them, when every step before it succeeds.
pub open spec fn recall_span(log: Seq<char>, group: Option<Seq<char>>, entries: Option<Seq<EntryView>>) -> Option<(int, int)> {
    match (group, entries) {
        (Some(gid), Some(es)) => match first_group(groups_of(log), gid, 0) {
            Some(gi) => match range_ends(groups_of(log)[gi].range) {
                Some((s, e)) => span_of(es, s, e),
                None => None,
            },
            None => None,
        },
        _ => None,
    }
}

/// The recall answer: the entries the named group's range covers, or
/// what stopped the lookup.
pub open spec fn recall_of(log: Seq<char>, group: Option<Seq<char>>, entries: Option<Seq<EntryView>>) -> Seq<char> {
    match group {
        None => "recall: missing \"group\""@,
        Some(gid) => match first_group(groups_of(log), gid, 0) {
            None => "no observation group "@ + gid,
            Some(gi) => match range_ends(groups_of(log)[gi].range) {
                None => "the group has no range"@,
                Some((s, e)) => match entries {
                    None => "session read failed"@,
                    Some(es) => match span_of(es, s, e) {
                        None => "range start not in this session"@,
                        Some((si, ei)) => recall_lines(es.subrange(si, ei)),
                    },
                },
            },
        },
    }
}

/// The index of the first group with id `id`.
fn group_position(groups: &Vec<ObservationGroup>, id: &str) -> (r: Option<usize>)
    ensures
        r matches Some(i) ==> first_group(group_views(groups@), id@, 0) == Some(i as int) && i < groups@.len(),
        r is None ==> first_group(group_views(groups@), id@, 0) is None,
{
    let ghost gv = group_views(groups@);
    let k = chars_of(id);
    let mut i: usize = 0;
    while i < groups.len()
        invariant
            i <= groups@.len(),
            gv == group_views(groups@),
            gv.len() == groups@.len(),
            k@ == id@,
            first_group(gv, id@, 0) == first_group(gv, id@, i as int),
        decreases groups@.len() - i,
    {
        assert(gv[i as int] == groups@[i as int]@);
        if chars_eq(&chars_of(groups[i].id.as_str()), &k) {
            return Some(i);
        }
        i = i + 1;
    }
    None
}

/// The recall lookup: the span of entries to browse, or the answer that
/// stopped the lookup before it.
fn recall_lookup(record: &OmRecord, group: Option<&str>, entries: Option<&[EntryInfo]>) -> (r: Result<(usize, usize), String>)
    requires
        groups_ok(record.frozen_prefix@ + record.active_observations@),
    ensures
        ({
            let log = record.frozen_prefix@ + record.active_observations@;
            match r {
                Ok((si, ei)) => {
                    &&& recall_span(log, opt_str(group), opt_entries(entries)) == Some((si as int, ei as int))
                    &&& entries matches Some(es) && ei <= es@.len()
                },
                Err(m) => recall_span(log, opt_str(group), opt_entries(entries)) is None && m@ == recall_of(
                    log,
                    opt_str(group),
                    opt_entries(entries),
                ),
            }
        }),
{
    let ghost log = record.frozen_prefix@ + record.active_observations@;
    let gid = match group {
        None => {
            return Err(String::from_str("recall: missing \"group\""));
        },
        Some(g) => g,
    };
    let mut logv = chars_of(record.frozen_prefix.as_str());
    append_str(&mut logv, record.active_observations.as_str());
    let logs = string_of(&logv);
    assert(logs@ == log);
    let groups = parse_observation_groups(logs.as_str());
    let ghost gv = groups_of(log);
    let gi = match group_position(&groups, gid) {
        None => {
            let mut msg = chars_of("no observation group ");
            append_str(&mut msg, gid);
            return Err(string_of(&msg));
        },
        Some(i) => i,
    };
    let g = &groups[gi];
    assert(gv[gi as int] == g@);
    let mut segs: Vec<Vec<char>> = Vec::new();
    push_segments(&mut segs, &chars_of(g.range.as_str()));
    let ghost ts = trimmed_nonempty(split(g.range@, ','));
    assert(segs@.len() == ts.len());
    assert(forall|k: int| 0 <= k < ts.len() ==> #[trigger] segs@[k]@ == ts[k]) by {
        assert forall|k: int| 0 <= k < ts.len() implies #[trigger] segs@[k]@ == ts[k] by {
            assert(segs@[0 + k]@ == ts[k]);
        }
    }
    if segs.len() == 0 {
        return Err(String::from_str("the group has no range"));
    }
    proof {
        lemma_split_nonempty(segs@[0]@, ':');
        lemma_split_nonempty(segs@[segs@.len() - 1]@, ':');
    }
    let firsts = split_chars(&segs[0], ':');
    let lasts = split_chars(&segs[segs.len() - 1], ':');
    let start = string_of(&firsts[0]);
    let end = string_of(&lasts[lasts.len() - 1]);
    assert(start@ == split(ts[0], ':')[0]);
    assert(end@ == split(ts.last(), ':').last());
    let es = match entries {
        None => {
            return Err(String::from_str("session read failed"));
        },
        Some(es) => es,
    };
    let ghost ev = entry_views(es@);
    let si = match position_of(es, start.as_str()) {
        None => {
            return Err(String::from_str("range start not in this session"));
        },
        Some(i) => i,
    };
    let ei = match position_of(es, end.as_str()) {
        Some(j) => {
            assert(j < es.len());
            j + 1
        },
        None => es.len(),
    };
    Ok((si, ei))
}

/// Browse the raw entries an observation group covers, looked up by id in
/// the whole log (the frozen prefix included, demoted or not). `group` is
/// the tool's argument; `entries` the session's entries in file order, or
/// `None` when reading them failed.
pub fn recall(record: &OmRecord, group: Option<&str>, entries: Option<&[EntryInfo]>) -> (r: String)
    requires
        groups_ok(record.frozen_prefix@ + record.active_observations@),
        recall_span(record.frozen_prefix@ + record.active_observations@, opt_str(group), opt_entries(entries))
            matches Some((si, ei)) ==> si <= ei,
    ensures
        r@ == recall_of(record.frozen_prefix@ + record.active_observations@, opt_str(group), opt_entries(entries)),
{
    let (si, ei) = match recall_lookup(record, group, entries) {
        Err(m) => {
            return m;
        },
        Ok(span) => span,
    };
    let es = match entries {
        Some(es) => es,
        None => {
            return String::new();
        },
    };
    let ghost ev = entry_views(es@);
    let mut out: Vec<char> = Vec::new();
    let mut i = si;
    while i < ei
        invariant
            si <= i <= ei <= es@.len(),
            ev == entry_views(es@),
            out@ == recall_lines(ev.subrange(si as int, i as int)),
        decreases ei - i,
    {
        assert(ev.subrange(si as int, i + 1).drop_last() =~= ev.subrange(si as int, i as int));
        assert(ev[i as int] == es@[i as int]@);
        let e = &es[i];
        append_str(&mut out, e.id.as_str());
        out.push(' ');
        append_str(&mut out, e.kind.as_str());
        out.push(' ');
        let text = chars_of(entry_text(e).as_str());
        let cut = if text.len() <= 200 { text.len() } else { 200 };
        let pv = slice_vec(&text, 0, cut);
        append_chars(&mut out, &pv);
        out.push('\n');
        proof {
            assert(pv@ =~= text_preview(entry_text_of(ev[i as int])));
        }
        assert(out@ =~= recall_lines(ev.subrange(si as int, i as int)) + recall_line(ev[i as int]));
        i = i + 1;
    }
    string_of(&out)
}

/// The recall tool on any log and entries: `None` exactly where the
/// lookup is undefined (a log tag that does not close its attributes before
/// its closing tag, or a range whose end entry precedes its start), the
/// recall answer otherwise.
pub fn recall_checked(record: &OmRecord, group: Option<&str>, entries: Option<&[EntryInfo]>) -> (r: Option<String>)
    ensures
        ({
            let log = record.frozen_prefix@ + record.active_observations@;
            &&& r is Some <==> (groups_ok(log) && (recall_span(log, opt_str(group), opt_entries(entries)) matches Some(
                (si, ei),
            ) ==> si <= ei))
            &&& r matches Some(s) ==> s@ == recall_of(log, opt_str(group), opt_entries(entries))
        }),
{
    let mut logv = chars_of(record.frozen_prefix.as_str());
    append_str(&mut logv, record.active_observations.as_str());
    let logs = string_of(&logv);
    if !crate::om::groups::groups_well_formed(logs.as_str()) {
        return None;
    }
    match recall_lookup(record, group, entries) {
        Ok((si, ei)) => {
            if si > ei {
                return None;
            }
        },
        Err(_) => {},
    }
    Some(recall(record, group, entries))
}

/// Compacted-spawn seeding: the parent's whole log verbatim becomes the
/// child's frozen prefix, over an empty managed suffix. The second part is
/// the source range the prefix covers, for the child's spawn-snapshot
/// entry; `None` when the parent's log is empty (no snapshot entry).
pub fn seed_compacted_child(parent: &OmRecord) -> (r: (OmRecord, Option<String>))
    requires
        groups_ok(parent.frozen_prefix@ + parent.active_observations@),
    ensures
        ({
            let log = parent.frozen_prefix@ + parent.active_observations@;
            &&& r.0.frozen_prefix@ == log
            &&& r.0.active_observations@.len() == 0
            &&& r.0.cursor is None
            &&& r.0.generation == 0
            &&& r.0.observation_tokens == 0
            &&& r.0.pending_tokens == 0
            &&& !r.0.prefix_demoted
            &&& log.len() == 0 ==> r.1 is None
            &&& log.len() > 0 ==> (r.1 matches Some(range) && range@ == combined(
                groups_of(log).map_values(|g: GroupSpec| g.range),
            ))
        }),
{
    let mut logv = chars_of(parent.frozen_prefix.as_str());
    append_str(&mut logv, parent.active_observations.as_str());
    let log = string_of(&logv);
    let range = if logv.len() == 0 {
        None
    } else {
        let groups = parse_observation_groups(log.as_str());
        proof {
            assert(crate::om::groups::ranges_of(groups@) =~= groups_of(log@).map_values(|g: GroupSpec| g.range));
        }
        Some(combine_group_ranges(&groups))
    };
    let record = OmRecord {
        frozen_prefix: log,
        active_observations: String::new(),
        cursor: None,
        generation: 0,
        observation_tokens: 0,
        pending_tokens: 0,
        prefix_demoted: false,
    };
    (record, range)
}

/// The index, on the branch, of its last observation-record entry.
pub open spec fn last_record_index(b: Seq<EntryView>) -> Option<int>
    decreases b.len(),
{
    if b.len() == 0 {
        None
    } else if b.last().kind == "om"@ {
        Some(b.len() - 1)
    } else {
        last_record_index(b.drop_last())
    }
}

/// The entry that carries the current observation record: the last `om`
/// entry on the active branch (the record is appended, not kept in place;
/// the newest wins). `None` when the branch has none: the record is the
/// default one.
pub fn current_record_entry(entries: &[EntryInfo], leaf_id: Option<&str>) -> (r: Option<EntryInfo>)
    requires
        branch_ok(entry_views(entries@), opt_str(leaf_id)),
    ensures
        ({
            let b = branch_of(entry_views(entries@), opt_str(leaf_id));
            match last_record_index(b) {
                Some(i) => r matches Some(e) && e@ == b[i],
                None => r is None,
            }
        }),
{
    let branch = branch_entries(entries, leaf_id);
    let ghost b = entry_views(branch@);
    let om = chars_of("om");
    let mut n = branch.len();
    assert(b.take(n as int) =~= b);
    while n > 0
        invariant
            n <= branch@.len(),
            b == entry_views(branch@),
            b == branch_of(entry_views(entries@), opt_str(leaf_id)),
            om@ == "om"@,
            last_record_index(b) == last_record_index(b.take(n as int)),
        decreases n,
    {
        assert(b[n - 1] == branch@[n - 1]@);
        assert(b.take(n as int).drop_last() =~= b.take(n - 1));
        if chars_eq(&chars_of(branch[n - 1].kind.as_str()), &om) {
            return Some(copy_entry(&branch[n - 1]));
        }
        n = n - 1;
    }
    None
}

} // verus!

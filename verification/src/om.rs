//! Observational memory: an observer condenses raw history into a dense,
//! append-only observation log; a reflector periodically rewrites the log to
//! keep it bounded. This module holds the pure parts: the token estimate,
//! the trigger thresholds, the boundary-delimited log, the projected
//! activation removal, and the per-session record.

use crate::text::{
    chars_of, decimal, ends_with, ends_with_exec, is_blank, lines_chars, lines_of, push_chars,
    push_decimal, starts_with, starts_with_exec, string_of, trim, trim_chars,
};
use vstd::prelude::*;

pub mod groups;
pub mod provenance;
pub mod reflector;

pub use groups::{
    combine_group_ranges, generate_group_id, parse_observation_groups, render_groups_for_reflection,
    strip_observation_groups, wrap_in_observation_group, ObservationGroup,
};
pub use provenance::{derive_group_provenance, reconcile_groups_from_reflection};
pub use reflector::{
    build_reflector_prompt, build_reflector_prompt_frozen, is_reflector_list_item, COMPRESSION_GUIDANCE,
};

verus! {

/// Soft token estimate for thresholding: about four characters per token.
pub open spec fn token_count_of(s: Seq<char>) -> u32 {
    (s.len() / 4) as u32
}

/// Soft token estimate: the character count divided by four.
pub fn token_count(text: &str) -> (r: u32)
    ensures
        r == token_count_of(text@),
{
    let v = chars_of(text);
    (v.len() / 4) as u32
}

/// A reflection pass must shrink the log: the reflected text is accepted
/// only when its estimate is below the source's.
pub fn validate_compression(source: &str, reflected: &str) -> (r: bool)
    ensures
        r == (token_count_of(reflected@) < token_count_of(source@)),
{
    token_count(reflected) < token_count(source)
}

/// The integer trigger thresholds of observational memory.
pub struct OmThresholds {
    /// Unobserved tokens at which the observer fires.
    pub observe_threshold: u32,
    /// Observation tokens at which the reflector fires.
    pub reflect_threshold: u32,
    /// With a shared budget the observer threshold grows into unused
    /// observation space.
    pub share_token_budget: bool,
}

pub open spec fn sat_add(a: int, b: int) -> int {
    if a + b > u32::MAX {
        u32::MAX as int
    } else {
        a + b
    }
}

pub open spec fn sat_sub(a: int, b: int) -> int {
    if a >= b {
        a - b
    } else {
        0
    }
}

impl OmThresholds {
    /// The effective observer threshold for the current observation size:
    /// with a shared budget, `max(total - observed, base)` (saturating).
    pub open spec fn observe_threshold_spec(self, observation_tokens: u32) -> int {
        if !self.share_token_budget {
            self.observe_threshold as int
        } else {
            let total = sat_add(self.observe_threshold as int, self.reflect_threshold as int);
            let eff = sat_sub(total, observation_tokens as int);
            if eff >= self.observe_threshold {
                eff
            } else {
                self.observe_threshold as int
            }
        }
    }

    pub fn observe_threshold_for(&self, observation_tokens: u32) -> (r: u32)
        ensures
            r as int == self.observe_threshold_spec(observation_tokens),
    {
        if !self.share_token_budget {
            return self.observe_threshold;
        }
        let total = self.observe_threshold.saturating_add(self.reflect_threshold);
        let effective = total.saturating_sub(observation_tokens);
        if effective >= self.observe_threshold {
            effective
        } else {
            self.observe_threshold
        }
    }
}

/// Observer trigger: unobserved tokens reached the (dynamic) threshold.
pub fn should_observe(pending_tokens: u32, observed_tokens: u32, config: &OmThresholds) -> (r: bool)
    ensures
        r == (pending_tokens >= config.observe_threshold_spec(observed_tokens)),
{
    pending_tokens >= config.observe_threshold_for(observed_tokens)
}

/// Reflector trigger: observation tokens reached the threshold.
pub fn should_reflect(observation_tokens: u32, config: &OmThresholds) -> (r: bool)
    ensures
        r == (observation_tokens >= config.reflect_threshold),
{
    observation_tokens >= config.reflect_threshold
}

/// A buffered observer chunk's footprint in the raw window.
#[derive(Debug, Clone, Copy)]
pub struct ChunkTokens(pub u32);

/// The running sum of the first `i` chunks.
pub open spec fn chunk_sum(chunks: Seq<u32>, i: int) -> int
    decreases i,
{
    if i <= 0 {
        0
    } else {
        chunk_sum(chunks, i - 1) + chunks[i - 1]
    }
}

/// The scan state after `i` chunks: the smallest cumulative sum at or over
/// `target` with its boundary, and the largest sum under it.
pub open spec fn removal_scan(chunks: Seq<u32>, target: int, i: int) -> (int, int, int)
    decreases i,
{
    if i <= 0 {
        (0, 0, 0)
    } else {
        let (over_b, over_t, under_t) = removal_scan(chunks, target, i - 1);
        let c = chunk_sum(chunks, i);
        if c >= target {
            if over_b == 0 || c < over_t {
                (i, c, under_t)
            } else {
                (over_b, over_t, under_t)
            }
        } else if c > under_t {
            (over_b, over_t, c)
        } else {
            (over_b, over_t, under_t)
        }
    }
}

/// Raw tokens removed if activation happened now: the chunk boundary
/// closest to `pending - floor`, preferring the first boundary at or over
/// it unless that overshoots by more than 95% of the floor or leaves less
/// than `min(1000, floor)`; else the best boundary under it.
pub open spec fn projected_removal(chunks: Seq<u32>, floor: int, pending: int) -> int {
    if chunks.len() == 0 {
        0
    } else {
        let target = sat_sub(pending, floor);
        if target == 0 {
            0
        } else {
            let (over_b, over_t, under_t) = removal_scan(chunks, target, chunks.len() as int);
            let max_overshoot = floor * 95 / 100;
            let overshoot = sat_sub(over_t, target);
            let rem_over = sat_sub(pending, over_t);
            let rem_under = sat_sub(pending, under_t);
            let min_remaining = if 1000 <= floor {
                1000
            } else {
                floor
            };
            if over_b > 0 && overshoot <= max_overshoot && rem_over >= min_remaining {
                over_t as u32 as int
            } else if under_t > 0 && rem_under >= min_remaining {
                under_t as u32 as int
            } else if over_b > 0 {
                over_t as u32 as int
            } else {
                chunks[0] as int
            }
        }
    }
}

pub open spec fn chunk_values(chunks: Seq<ChunkTokens>) -> Seq<u32> {
    chunks.map_values(|c: ChunkTokens| c.0)
}

/// The projected raw-token removal at activation, given the retention floor.
pub fn projected_message_removal(chunks: &[ChunkTokens], retention_floor: u32, current_pending_tokens: u32) -> (r: u32)
    requires
        chunks@.len() <= u32::MAX,
    ensures
        r as int == projected_removal(chunk_values(chunks@), retention_floor as int, current_pending_tokens as int),
{
    let ghost cv = chunk_values(chunks@);
    if chunks.len() == 0 {
        return 0;
    }
    let floor = retention_floor as u64;
    let pending = current_pending_tokens as u64;
    let target = pending.saturating_sub(floor);
    if target == 0 {
        return 0;
    }
    let mut cumulative: u64 = 0;
    let mut best_over_boundary: u32 = 0;
    let mut best_over_tokens: u64 = 0;
    let mut best_under_tokens: u64 = 0;
    let mut i: usize = 0;
    while i < chunks.len()
        invariant
            i <= chunks@.len() <= u32::MAX,
            cv == chunk_values(chunks@),
            target == sat_sub(pending as int, floor as int),
            cumulative as int == chunk_sum(cv, i as int),
            cumulative <= i * 0xffff_ffff,
            removal_scan(cv, target as int, i as int) == (
                best_over_boundary as int,
                best_over_tokens as int,
                best_under_tokens as int,
            ),
        decreases chunks@.len() - i,
    {
        assert(cv[i as int] == chunks@[i as int].0);
        cumulative = cumulative + chunks[i].0 as u64;
        let boundary = (i + 1) as u32;
        if cumulative >= target {
            if best_over_boundary == 0 || cumulative < best_over_tokens {
                best_over_boundary = boundary;
                best_over_tokens = cumulative;
            }
        } else if cumulative > best_under_tokens {
            best_under_tokens = cumulative;
        }
        i = i + 1;
    }
    let max_overshoot = floor * 95 / 100;
    let overshoot = best_over_tokens.saturating_sub(target);
    let remaining_after_over = pending.saturating_sub(best_over_tokens);
    let remaining_after_under = pending.saturating_sub(best_under_tokens);
    let min_remaining = if 1000 <= floor {
        1000
    } else {
        floor
    };
    if best_over_boundary > 0 && overshoot <= max_overshoot && remaining_after_over >= min_remaining {
        best_over_tokens as u32
    } else if best_under_tokens > 0 && remaining_after_under >= min_remaining {
        best_under_tokens as u32
    } else if best_over_boundary > 0 {
        best_over_tokens as u32
    } else {
        assert(cv[0] == chunks@[0].0);
        chunks[0].0
    }
}

/// The observation cursor: the newest observed entry and its timestamp.
#[derive(Debug, Clone, PartialEq, Eq)]
pub struct Cursor {
    pub entry_id: String,
    pub timestamp: u64,
}

impl Cursor {
    /// `entry_id@timestamp`, as the cursor is shown.
    pub fn to_text(&self) -> (r: String)
        ensures
            r@ == self.entry_id@.push('@') + decimal(self.timestamp as nat),
    {
        let mut v = chars_of(self.entry_id.as_str());
        v.push('@');
        push_decimal(&mut v, self.timestamp);
        string_of(&v)
    }

    /// A copy of the cursor.
    pub fn copy(&self) -> (r: Cursor)
        ensures
            r == *self,
    {
        Cursor { entry_id: self.entry_id.clone(), timestamp: self.timestamp }
    }
}

pub fn copy_cursor(c: &Option<Cursor>) -> (r: Option<Cursor>)
    ensures
        r == *c,
{
    match c {
        None => None,
        Some(x) => Some(x.copy()),
    }
}

/// Per-session observational-memory state.
#[derive(Debug)]
pub struct OmRecord {
    /// The parent's observation log verbatim at a compacted spawn: never
    /// re-observed, never re-reflected, outside the token accounting.
    pub frozen_prefix: String,
    /// This session's own observations: the part the reflector rewrites.
    pub active_observations: String,
    /// Newest entry already observed; `None` = nothing observed yet.
    pub cursor: Option<Cursor>,
    /// Reflection generation counter.
    pub generation: u32,
    pub observation_tokens: u32,
    pub pending_tokens: u32,
    /// The frozen prefix demoted to recall-only (out of the live context).
    pub prefix_demoted: bool,
}

impl Default for OmRecord {
    fn default() -> (r: Self)
        ensures
            r.frozen_prefix@.len() == 0,
            r.active_observations@.len() == 0,
            r.cursor is None,
            r.generation == 0,
            r.observation_tokens == 0,
            r.pending_tokens == 0,
            !r.prefix_demoted,
    {
        OmRecord {
            frozen_prefix: String::new(),
            active_observations: String::new(),
            cursor: None,
            generation: 0,
            observation_tokens: 0,
            pending_tokens: 0,
            prefix_demoted: false,
        }
    }
}

impl OmRecord {
    /// The live observation text: the frozen prefix and the managed suffix,
    /// or the suffix alone once the prefix is demoted.
    pub fn live_observations(&self) -> (r: String)
        ensures
            r@ == if self.prefix_demoted {
                self.active_observations@
            } else {
                self.frozen_prefix@ + self.active_observations@
            },
    {
        if self.prefix_demoted {
            return self.active_observations.clone();
        }
        let mut s = self.frozen_prefix.clone();
        s.append(self.active_observations.as_str());
        s
    }

    /// What the reflector sees and rewrites: the managed suffix only.
    pub fn reflect_source(&self) -> (r: &str)
        ensures
            r@ == self.active_observations@,
    {
        self.active_observations.as_str()
    }
}

/// A fork's record: the parent's full log (a demoted prefix included) as
/// the fork's own suffix, the cursor and generation copied, no pending
/// tokens, no frozen prefix.
pub fn fork_record(parent: &OmRecord) -> (r: OmRecord)
    ensures
        r.frozen_prefix@.len() == 0,
        r.active_observations@ == parent.frozen_prefix@ + parent.active_observations@,
        r.cursor == parent.cursor,
        r.generation == parent.generation,
        r.observation_tokens == parent.observation_tokens,
        r.pending_tokens == 0,
        !r.prefix_demoted,
{
    let mut active = parent.frozen_prefix.clone();
    active.append(parent.active_observations.as_str());
    OmRecord {
        frozen_prefix: String::new(),
        active_observations: active,
        cursor: copy_cursor(&parent.cursor),
        generation: parent.generation,
        observation_tokens: parent.observation_tokens,
        pending_tokens: 0,
        prefix_demoted: false,
    }
}

pub open spec fn boundary_prefix() -> Seq<char> {
    "--- message boundary ("@
}

pub open spec fn boundary_suffix() -> Seq<char> {
    ") ---"@
}

/// The cache-stability delimiter observations are appended after.
pub open spec fn message_boundary_of(ts: Seq<char>) -> Seq<char> {
    boundary_prefix() + ts + boundary_suffix()
}

/// `--- message boundary (<timestamp>) ---`.
pub fn message_boundary(iso_timestamp: &str) -> (r: String)
    ensures
        r@ == message_boundary_of(iso_timestamp@),
{
    let mut s = String::from_str("--- message boundary (");
    s.append(iso_timestamp);
    s.append(") ---");
    proof {
        reveal_strlit("--- message boundary (");
        reveal_strlit(") ---");
    }
    s
}

/// A boundary delimiter line.
pub open spec fn is_boundary_line(l: Seq<char>) -> bool {
    starts_with(l, boundary_prefix()) && ends_with(l, " ---"@)
}

fn is_boundary_line_exec(l: &[char]) -> (b: bool)
    ensures
        b == is_boundary_line(l@),
{
    let p = chars_of("--- message boundary (");
    let q = chars_of(" ---");
    starts_with_exec(l, &p) && ends_with_exec(l, &q)
}

/// The chunk scan over the first `n` lines: the finished chunks and the
/// one being gathered (each gathered line ends with a newline).
pub open spec fn chunk_scan(lines: Seq<Seq<char>>, n: int) -> (Seq<Seq<char>>, Seq<char>)
    decreases n,
{
    if n <= 0 {
        (Seq::empty(), Seq::empty())
    } else {
        let (chunks, cur) = chunk_scan(lines, n - 1);
        let l = lines[n - 1];
        if is_boundary_line(l) {
            if trim(cur).len() != 0 {
                (chunks.push(cur), Seq::empty())
            } else {
                (chunks, cur)
            }
        } else {
            (chunks, cur + l.push('\n'))
        }
    }
}

/// The log split at boundary delimiters into trimmed, non-blank chunks.
pub open spec fn observation_chunks(s: Seq<char>) -> Seq<Seq<char>> {
    let lines = lines_of(s);
    let (chunks, cur) = chunk_scan(lines, lines.len() as int);
    let all = if trim(cur).len() != 0 {
        chunks.push(cur)
    } else {
        chunks
    };
    all.map_values(|c: Seq<char>| trim(c))
}

/// Split the observation log into cache-stable chunks at the boundary
/// delimiters; blank segments are dropped and each chunk is trimmed.
pub fn split_observation_chunks(observations: &str) -> (r: Vec<String>)
    ensures
        r@.len() == observation_chunks(observations@).len(),
        forall|i: int| 0 <= i < r@.len() ==> #[trigger] r@[i]@ == observation_chunks(observations@)[i],
{
    let v = chars_of(observations);
    let lines = lines_chars(&v);
    let ghost ls = lines_of(v@);
    let mut chunks: Vec<Vec<char>> = Vec::new();
    let mut current: Vec<char> = Vec::new();
    let mut i: usize = 0;
    while i < lines.len()
        invariant
            i <= lines@.len() == ls.len(),
            forall|k: int| 0 <= k < lines@.len() ==> #[trigger] lines@[k]@ == ls[k],
            chunk_scan(ls, i as int).0 == chunks@.map_values(|c: Vec<char>| c@),
            chunk_scan(ls, i as int).1 == current@,
        decreases lines@.len() - i,
    {
        let ghost before = chunks@.map_values(|c: Vec<char>| c@);
        if is_boundary_line_exec(&lines[i]) {
            if !is_blank(&current) {
                let done = current;
                current = Vec::new();
                chunks.push(done);
                assert(chunks@.map_values(|c: Vec<char>| c@) =~= before.push(done@));
            }
        } else {
            let ghost c0 = current@;
            let l = &lines[i];
            let mut k: usize = 0;
            while k < l.len()
                invariant
                    k <= l@.len(),
                    current@ == c0 + l@.take(k as int),
                decreases l@.len() - k,
            {
                current.push(l[k]);
                assert(l@.take(k as int).push(l@[k as int]) =~= l@.take(k + 1));
                k = k + 1;
            }
            current.push('\n');
            assert(l@.take(l@.len() as int) =~= l@);
            assert(current@ =~= c0 + l@.push('\n'));
        }
        i = i + 1;
    }
    if !is_blank(&current) {
        let ghost before = chunks@.map_values(|c: Vec<char>| c@);
        let done = current;
        chunks.push(done);
        assert(chunks@.map_values(|c: Vec<char>| c@) =~= before.push(done@));
    }
    let ghost all = chunks@.map_values(|c: Vec<char>| c@);
    let mut out: Vec<String> = Vec::new();
    let mut j: usize = 0;
    while j < chunks.len()
        invariant
            j <= chunks@.len(),
            all == chunks@.map_values(|c: Vec<char>| c@),
            out@.len() == j,
            forall|k: int| 0 <= k < j ==> #[trigger] out@[k]@ == trim(all[k]),
        decreases chunks@.len() - j,
    {
        let t = trim_chars(&chunks[j]);
        out.push(string_of(&t));
        j = j + 1;
    }
    out
}

/// The log with a new observation appended after a fresh boundary.
pub open spec fn appended_observation(existing: Seq<char>, ts: Seq<char>, obs: Seq<char>) -> Seq<char> {
    let base = if existing.len() > 0 && existing.last() != '\n' {
        existing.push('\n')
    } else {
        existing
    };
    base.push('\n') + message_boundary_of(ts) + "\n\n"@ + trim(obs) + "\n"@
}

/// Append a new observation after a fresh boundary delimiter; the existing
/// text stays a byte-identical prefix (prompt-cache stability).
pub fn append_observation(existing: &str, iso_timestamp: &str, new_observation: &str) -> (r: String)
    ensures
        r@ == appended_observation(existing@, iso_timestamp@, new_observation@),
{
    let mut out = existing.to_owned();
    let ev = chars_of(existing);
    if ev.len() > 0 && ev[ev.len() - 1] != '\n' {
        crate::text::push_char(&mut out, '\n');
    }
    crate::text::push_char(&mut out, '\n');
    let b = message_boundary(iso_timestamp);
    out.append(b.as_str());
    out.append("\n\n");
    let t = trim_chars(&chars_of(new_observation));
    push_chars(&mut out, &t);
    out.append("\n");
    proof {
        reveal_strlit("\n\n");
        reveal_strlit("\n");
    }
    out
}

/// The existing log is a prefix of the appended log.
pub proof fn lemma_append_keeps_prefix(existing: Seq<char>, ts: Seq<char>, obs: Seq<char>)
    ensures
        appended_observation(existing, ts, obs).take(existing.len() as int) == existing,
{
    let base = if existing.len() > 0 && existing.last() != '\n' {
        existing.push('\n')
    } else {
        existing
    };
    assert(appended_observation(existing, ts, obs).take(existing.len() as int) =~= existing);
}


proof fn lemma_boundary_one_line(ts: Seq<char>)
    requires
        !ts.contains('\n'),
    ensures
        !message_boundary_of(ts).contains('\n'),
        is_boundary_line(message_boundary_of(ts)),
        !is_boundary_line(Seq::<char>::empty()),
        message_boundary_of(ts).len() > 0 && message_boundary_of(ts).last() != '\r',
{
    reveal_strlit("--- message boundary (");
    reveal_strlit(") ---");
    reveal_strlit(" ---");
    let b = message_boundary_of(ts);
    let p = boundary_prefix();
    let q = boundary_suffix();
    assert forall|i: int| 0 <= i < b.len() implies b[i] != '\n' by {
        if i < p.len() {
            assert(b[i] == p[i]);
        } else if i < p.len() + ts.len() {
            assert(b[i] == ts[i - p.len()]);
        } else {
            assert(b[i] == q[i - p.len() - ts.len()]);
        }
    }
    assert(b.take(p.len() as int) =~= p);
    assert(b.skip(b.len() - 4) =~= " ---"@);
}

proof fn lemma_trim_ws_push(x: Seq<char>, c: char)
    requires
        crate::text::is_ws(c),
    ensures
        trim(x.push(c)) == trim(x),
{
    let s = x.push(c);
    crate::text::lemma_lead_ws_bound(x);
    let k = crate::text::lead_ws(x) as int;
    if k == x.len() {
        crate::text::lemma_lead_ws(s, s.len() as int);
        assert(crate::text::trim_start(s) =~= Seq::<char>::empty());
        assert(crate::text::trim_start(x) =~= Seq::<char>::empty());
    } else {
        crate::text::lemma_lead_ws(s, k);
        let tx = crate::text::trim_start(x);
        let ts = crate::text::trim_start(s);
        assert(ts =~= tx.push(c));
        assert(ts.drop_last() =~= tx);
        crate::text::lemma_trail_ws_bound(tx);
        assert(crate::text::trail_ws(ts) == 1 + crate::text::trail_ws(tx));
        assert(crate::text::trim_end(ts) =~= crate::text::trim_end(tx));
    }
}

proof fn lemma_trim_blank_is_ws(w: Seq<char>)
    requires
        trim(w).len() == 0,
    ensures
        forall|i: int| 0 <= i < w.len() ==> crate::text::is_ws(#[trigger] w[i]),
{
    crate::text::lemma_lead_ws_bound(w);
    let k = crate::text::lead_ws(w) as int;
    if k < w.len() {
        let ts = crate::text::trim_start(w);
        assert(ts[0] == w[k]);
        crate::text::lemma_trail_ws_bound(ts);
        if crate::text::trail_ws(ts) == ts.len() {
            assert(crate::text::is_ws(ts[0]));
        }
        assert(trim(w).len() > 0);
    }
}

proof fn lemma_trim_after_blank(w: Seq<char>, obs: Seq<char>)
    requires
        trim(w).len() == 0,
        trim(obs).len() > 0,
    ensures
        trim(w + trim(obs) + seq!['\n']) == trim(obs),
{
    let t = trim(obs);
    crate::text::lemma_trim_ends(obs);
    lemma_trim_blank_is_ws(w);
    let s = w + t + seq!['\n'];
    assert(s[w.len() as int] == t[0]);
    crate::text::lemma_lead_ws(s, w.len() as int);
    let ts = crate::text::trim_start(s);
    assert(ts =~= t + seq!['\n']);
    assert(ts[ts.len() - 2] == t.last());
    crate::text::lemma_trail_ws(ts, 1);
    assert(crate::text::trim_end(ts) =~= t);
}

proof fn lemma_chunk_scan_prefix(a: Seq<Seq<char>>, b: Seq<Seq<char>>, n: int)
    requires
        0 <= n <= a.len(),
        n <= b.len(),
        forall|i: int| 0 <= i < n ==> a[i] == b[i],
    ensures
        chunk_scan(a, n) == chunk_scan(b, n),
    decreases n,
{
    if n > 0 {
        lemma_chunk_scan_prefix(a, b, n - 1);
        assert(a[n - 1] == b[n - 1]);
    }
}

proof fn lemma_split_push_newline(x: Seq<char>)
    ensures
        crate::text::split(x.push('\n'), '\n') == crate::text::split(x, '\n').push(Seq::<char>::empty()),
{
    assert(x.push('\n').drop_last() =~= x);
}

proof fn lemma_split_add_line(x: Seq<char>, y: Seq<char>)
    requires
        !y.contains('\n'),
        crate::text::split(x, '\n').last() == Seq::<char>::empty(),
    ensures
        crate::text::split(x + y, '\n') == crate::text::split(x, '\n').drop_last().push(y),
{
    crate::text::lemma_split_extend(x, y, '\n');
    crate::text::lemma_split_nonempty(x, '\n');
    let p = crate::text::split(x, '\n');
    assert(Seq::<char>::empty() + y =~= y);
    assert(p.update(p.len() - 1, p.last() + y) =~= p.drop_last().push(y));
}

/// The lines of the appended log: the old log's lines, a blank line, the
/// boundary, a blank line and the observation.
proof fn lemma_appended_lines(existing: Seq<char>, ts: Seq<char>, obs: Seq<char>)
    requires
        existing.len() == 0 || existing.last() != '\r',
        !ts.contains('\n'),
        trim(obs).len() > 0,
        !trim(obs).contains('\n'),
    ensures
        lines_of(appended_observation(existing, ts, obs)) == lines_of(existing) + seq![
            Seq::<char>::empty(),
            message_boundary_of(ts),
            Seq::<char>::empty(),
            trim(obs),
        ],
{
    lemma_boundary_one_line(ts);
    crate::text::lemma_trim_ends(obs);
    reveal_strlit("\n\n");
    reveal_strlit("\n");
    let b = message_boundary_of(ts);
    let t = trim(obs);
    let base = if existing.len() > 0 && existing.last() != '\n' {
        existing.push('\n')
    } else {
        existing
    };
    let full = appended_observation(existing, ts, obs);
    let pb = crate::text::split(base, '\n');
    // The old log ends a line (or is empty): its split ends with an empty piece.
    if base.len() == 0 {
        assert(pb =~= seq![Seq::<char>::empty()]);
    } else {
        assert(base == base.drop_last().push('\n'));
        lemma_split_push_newline(base.drop_last());
    }
    assert(pb.last() == Seq::<char>::empty());
    crate::text::lemma_split_nonempty(base, '\n');
    let x1 = base.push('\n');
    lemma_split_push_newline(base);
    let x2 = x1 + b;
    lemma_split_add_line(x1, b);
    let x3 = x2.push('\n');
    lemma_split_push_newline(x2);
    let x4 = x3.push('\n');
    lemma_split_push_newline(x3);
    let x5 = x4 + t;
    lemma_split_add_line(x4, t);
    let x6 = x5.push('\n');
    lemma_split_push_newline(x5);
    assert(full =~= x6);
    let ps = pb.push(b).push(Seq::<char>::empty()).push(t).push(Seq::<char>::empty());
    assert(crate::text::split(full, '\n') =~= ps);
    assert(crate::text::strip_cr(b) == b);
    assert(crate::text::strip_cr(t) == t) by {
        assert(crate::text::is_ws('\r'));
    }
    let old_lines = pb.drop_last().map_values(|l: Seq<char>| crate::text::strip_cr(l));
    assert(lines_of(base) =~= old_lines);
    assert(lines_of(full) =~= old_lines + seq![Seq::<char>::empty(), b, Seq::<char>::empty(), t]);
    if base != existing {
        let pe = crate::text::split(existing, '\n');
        lemma_split_push_newline(existing);
        crate::text::lemma_split_nonempty(existing.drop_last(), '\n');
        assert(pe.last().last() == existing.last());
        assert(crate::text::strip_cr(pe.last()) == pe.last());
        assert(pb =~= pe.push(Seq::<char>::empty()));
        assert(lines_of(existing) =~= old_lines);
    }
}

/// Appending a non-blank one-line observation adds exactly one chunk: the
/// log's chunks are the old log's chunks, then the trimmed observation.
/// Every boundary closes the chunk gathered before it, so no chunk spans a
/// boundary, and a log built by `k` such appends splits into `k` chunks.
/// (Left out: an old log whose last, unterminated line ends with a carriage
/// return; its last line is read without the return once a newline follows.)
pub proof fn lemma_append_adds_one_chunk(existing: Seq<char>, ts: Seq<char>, obs: Seq<char>)
    requires
        existing.len() == 0 || existing.last() != '\r',
        !ts.contains('\n'),
        trim(obs).len() > 0,
        !trim(obs).contains('\n'),
        !is_boundary_line(trim(obs)),
    ensures
        observation_chunks(appended_observation(existing, ts, obs)) == observation_chunks(existing).push(
            trim(obs),
        ),
{
    lemma_appended_lines(existing, ts, obs);
    lemma_boundary_one_line(ts);
    let l = lines_of(existing);
    let b = message_boundary_of(ts);
    let t = trim(obs);
    let e = Seq::<char>::empty();
    let full = l + seq![e, b, e, t];
    let m = l.len() as int;
    lemma_chunk_scan_prefix(l, full, m);
    let (c, cur) = chunk_scan(l, m);
    assert(full[m] == e);
    assert(full[m + 1] == b);
    assert(full[m + 2] == e);
    assert(full[m + 3] == t);
    assert(chunk_scan(full, m + 1) == (c, cur + e.push('\n')));
    let cur1 = cur + e.push('\n');
    assert(cur1 =~= cur.push('\n'));
    lemma_trim_ws_push(cur, '\n');
    crate::text::lemma_trim_newlines(obs);
    if trim(cur).len() != 0 {
        assert(chunk_scan(full, m + 2) == (c.push(cur1), e));
        assert(chunk_scan(full, m + 3) == (c.push(cur1), e + e.push('\n')));
        let fin = e + e.push('\n') + t.push('\n');
        assert(chunk_scan(full, m + 4) == (c.push(cur1), fin));
        assert(fin =~= seq!['\n'] + t + seq!['\n']);
        assert(trim(fin) == t);
        assert(observation_chunks(appended_observation(existing, ts, obs)) =~= c.push(cur1).push(fin).map_values(
            |x: Seq<char>| trim(x),
        ));
        assert(observation_chunks(existing) =~= c.push(cur).map_values(|x: Seq<char>| trim(x)));
    } else {
        assert(chunk_scan(full, m + 2) == (c, cur1));
        assert(chunk_scan(full, m + 3) == (c, cur1 + e.push('\n')));
        let w = cur1 + e.push('\n');
        let fin = w + t.push('\n');
        assert(chunk_scan(full, m + 4) == (c, fin));
        assert(w =~= cur1.push('\n'));
        lemma_trim_ws_push(cur1, '\n');
        assert(fin =~= w + t + seq!['\n']);
        lemma_trim_after_blank(w, obs);
        assert(observation_chunks(appended_observation(existing, ts, obs)) =~= c.push(fin).map_values(
            |x: Seq<char>| trim(x),
        ));
        assert(observation_chunks(existing) =~= c.map_values(|x: Seq<char>| trim(x)));
    }
}

/// The log after appending each `(timestamp, observation)` in turn.
pub open spec fn appended_all(existing: Seq<char>, entries: Seq<(Seq<char>, Seq<char>)>) -> Seq<char>
    decreases entries.len(),
{
    if entries.len() == 0 {
        existing
    } else {
        appended_observation(appended_all(existing, entries.drop_last()), entries.last().0, entries.last().1)
    }
}

/// A log of boundary-separated non-blank observations splits into one chunk
/// per observation: appending `k` non-blank one-line observations in turn
/// adds exactly `k` chunks, the trimmed observations in order (so the empty
/// log becomes exactly those `k` chunks).
pub proof fn lemma_appends_split_into_their_chunks(existing: Seq<char>, entries: Seq<(Seq<char>, Seq<char>)>)
    requires
        existing.len() == 0 || existing.last() != '\r',
        forall|k: int|
            0 <= k < entries.len() ==> {
                let (ts, obs) = #[trigger] entries[k];
                &&& !ts.contains('\n')
                &&& trim(obs).len() > 0
                &&& !trim(obs).contains('\n')
                &&& !is_boundary_line(trim(obs))
            },
    ensures
        observation_chunks(appended_all(existing, entries)) == observation_chunks(existing) + entries.map_values(
            |e: (Seq<char>, Seq<char>)| trim(e.1),
        ),
    decreases entries.len(),
{
    let tail = entries.map_values(|e: (Seq<char>, Seq<char>)| trim(e.1));
    if entries.len() == 0 {
        assert(observation_chunks(existing) + tail =~= observation_chunks(existing));
    } else {
        let init = entries.drop_last();
        assert forall|k: int| 0 <= k < init.len() implies {
            let (ts, obs) = #[trigger] init[k];
            &&& !ts.contains('\n')
            &&& trim(obs).len() > 0
            &&& !trim(obs).contains('\n')
            &&& !is_boundary_line(trim(obs))
        } by {
            assert(init[k] == entries[k]);
        }
        lemma_appends_split_into_their_chunks(existing, init);
        let before = appended_all(existing, init);
        let (ts, obs) = entries.last();
        assert(entries.last() == entries[entries.len() - 1]);
        if init.len() > 0 {
            let (ts0, obs0) = init.last();
            reveal_strlit("\n");
            let prev = appended_all(existing, init.drop_last());
            assert(before == appended_observation(prev, ts0, obs0));
            assert(before.last() == '\n');
        }
        lemma_append_adds_one_chunk(before, ts, obs);
        assert(tail =~= init.map_values(|e: (Seq<char>, Seq<char>)| trim(e.1)).push(trim(obs)));
        assert(observation_chunks(existing) + tail =~= (observation_chunks(existing) + init.map_values(
            |e: (Seq<char>, Seq<char>)| trim(e.1),
        )).push(trim(obs)));
    }
}

} // verus!

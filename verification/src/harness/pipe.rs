//! The event pipe's drop bookkeeping: a bounded channel that is full
//! drops the event, and a drop is never silent. It is counted, and a
//! summary of the total is owed; the summary cannot ride the full
//! channel, so the next event that gets through is followed by it. A
//! summary that misses too stays owed.

use crate::text::{append_str, chars_of, decimal, push_decimal, string_of};
use vstd::prelude::*;

verus! {

/// The pipe's counters: the events dropped so far (the ground truth,
/// wrapping as the atomic counter does) and whether a summary is owed.
#[derive(Debug, Clone, Copy, PartialEq, Eq)]
pub struct PipeCounters {
    pub dropped: u64,
    pub overflow_pending: bool,
}

impl PipeCounters {
    /// A fresh pipe: nothing dropped, nothing owed.
    pub fn new() -> (r: PipeCounters)
        ensures
            r.dropped == 0,
            !r.overflow_pending,
    {
        PipeCounters { dropped: 0, overflow_pending: false }
    }
}

/// The summary of the drops so far.
pub open spec fn overflow_text(total: u64) -> Seq<char> {
    "event pipe overflow: "@ + decimal(total as nat) + " event(s) dropped — the view may be missing events; reload"@
}

/// The summary of `total` dropped events.
pub fn overflow_summary(total: u64) -> (r: String)
    ensures
        r@ == overflow_text(total),
{
    let mut m = chars_of("event pipe overflow: ");
    push_decimal(&mut m, total);
    append_str(&mut m, " event(s) dropped — the view may be missing events; reload");
    string_of(&m)
}

/// The counter after one more drop.
pub open spec fn one_more(n: u64) -> u64 {
    if n == u64::MAX {
        0
    } else {
        (n + 1) as u64
    }
}

/// The bookkeeping of one send: a dropped event is counted and owes a
/// summary; a delivered one, with a summary owed, clears the debt and
/// hands back the summary of the total, which the caller sends next (and
/// reports with `summary_sent`).
pub fn after_send(c: &mut PipeCounters, delivered: bool) -> (r: Option<String>)
    ensures
        !delivered ==> final(c).dropped == one_more(old(c).dropped) && final(c).overflow_pending && r is None,
        delivered && old(c).overflow_pending ==> final(c).dropped == old(c).dropped && !final(c).overflow_pending,
        delivered && old(c).overflow_pending ==> (r matches Some(m) && m@ == overflow_text(old(c).dropped)),
        delivered && !old(c).overflow_pending ==> *final(c) == *old(c) && r is None,
{
    if !delivered {
        c.dropped = c.dropped.wrapping_add(1);
        c.overflow_pending = true;
        return None;
    }
    if c.overflow_pending {
        c.overflow_pending = false;
        return Some(overflow_summary(c.dropped));
    }
    None
}

/// The bookkeeping of a summary's send: one that missed stays owed.
pub fn after_summary(c: &mut PipeCounters, delivered: bool)
    ensures
        final(c).dropped == old(c).dropped,
        final(c).overflow_pending == (old(c).overflow_pending || !delivered),
{
    if !delivered {
        c.overflow_pending = true;
    }
}

/// What happened to one event on the pipe: whether it got through and,
/// when it owed the summary, whether the summary did.
pub struct Delivery {
    pub event: bool,
    pub summary: bool,
}

/// The counters with what the observers were last told: the total of the
/// last summary that got through (0 before any).
pub struct PipeRun {
    pub counters: PipeCounters,
    pub told: u64,
}

/// One event through the pipe, as `after_send` and `after_summary` keep
/// the books.
pub open spec fn pipe_step(st: PipeRun, d: Delivery) -> PipeRun {
    let c = st.counters;
    if !d.event {
        PipeRun { counters: PipeCounters { dropped: one_more(c.dropped), overflow_pending: true }, told: st.told }
    } else if c.overflow_pending {
        if d.summary {
            PipeRun { counters: PipeCounters { dropped: c.dropped, overflow_pending: false }, told: c.dropped }
        } else {
            PipeRun { counters: PipeCounters { dropped: c.dropped, overflow_pending: true }, told: st.told }
        }
    } else {
        st
    }
}

pub open spec fn pipe_run(ds: Seq<Delivery>) -> PipeRun
    decreases ds.len(),
{
    if ds.len() == 0 {
        PipeRun { counters: PipeCounters { dropped: 0, overflow_pending: false }, told: 0 }
    } else {
        pipe_step(pipe_run(ds.drop_last()), ds.last())
    }
}

/// A drop is never silent: after any run of sends on a fresh pipe,
/// either a summary is owed or the observers were last told the current
/// total.
pub proof fn lemma_drops_are_never_silent(ds: Seq<Delivery>)
    ensures
        pipe_run(ds).counters.overflow_pending || pipe_run(ds).told == pipe_run(ds).counters.dropped,
    decreases ds.len(),
{
    if ds.len() > 0 {
        lemma_drops_are_never_silent(ds.drop_last());
    }
}

/// The step follows the books the two functions keep: `after_send` with
/// the event's fate, then, when it handed back a summary, `after_summary`
/// with the summary's.
pub proof fn lemma_step_follows_the_books(c: PipeCounters, told: u64, d: Delivery, after: PipeCounters, summary: Option<Seq<char>>, fin: PipeCounters)
    requires
        !d.event ==> after.dropped == one_more(c.dropped) && after.overflow_pending && summary is None,
        d.event && c.overflow_pending ==> (after.dropped == c.dropped && !after.overflow_pending && summary == Some(
            overflow_text(c.dropped),
        )),
        d.event && !c.overflow_pending ==> after == c && summary is None,
        summary is Some ==> fin.dropped == after.dropped && fin.overflow_pending == (after.overflow_pending || !d.summary),
        summary is None ==> fin == after,
    ensures
        pipe_step(PipeRun { counters: c, told }, d).counters == fin,
{
}

} // verus!

//! The reasoning-effort adjustment of the output cap: a thinking turn
//! reserves output room for its thinking, so the cap rises to the base
//! plus the level's token budget, capped at the model's maximum.

use crate::text::{chars_eq, chars_of};
use vstd::prelude::*;

verus! {

/// How hard a model is asked to think.
#[derive(Debug, Clone, Copy, PartialEq, Eq, Structural)]
pub enum ThinkingLevel {
    Off,
    Minimal,
    Low,
    Medium,
    High,
    XHigh,
    Max,
}

/// The budget key a level reads: `xhigh` and `max` fold to `high`.
pub open spec fn budget_key(level: ThinkingLevel) -> Seq<char> {
    match level {
        ThinkingLevel::Minimal => "minimal"@,
        ThinkingLevel::Low => "low"@,
        ThinkingLevel::Medium => "medium"@,
        ThinkingLevel::High | ThinkingLevel::XHigh | ThinkingLevel::Max => "high"@,
        ThinkingLevel::Off => "off"@,
    }
}

/// The default budget for a level.
pub open spec fn default_budget(level: ThinkingLevel) -> u32 {
    match level {
        ThinkingLevel::Minimal => 1024,
        ThinkingLevel::Low => 2048,
        ThinkingLevel::Medium => 8192,
        ThinkingLevel::High | ThinkingLevel::XHigh | ThinkingLevel::Max => 16384,
        ThinkingLevel::Off => 0,
    }
}

/// The value of the first entry for `key`.
pub open spec fn budget_entry(budgets: Seq<(Seq<char>, u32)>, key: Seq<char>) -> Option<u32>
    decreases budgets.len(),
{
    if budgets.len() == 0 {
        None
    } else if budgets[0].0 == key {
        Some(budgets[0].1)
    } else {
        budget_entry(budgets.drop_first(), key)
    }
}

pub open spec fn budget_views(b: Seq<(String, u32)>) -> Seq<(Seq<char>, u32)> {
    b.map_values(|e: (String, u32)| (e.0@, e.1))
}

/// The token budget of a level: the user's entry for its key, else the
/// default.
pub open spec fn budget_of(level: ThinkingLevel, budgets: Seq<(Seq<char>, u32)>) -> u32 {
    match budget_entry(budgets, budget_key(level)) {
        Some(b) => b,
        None => default_budget(level),
    }
}

/// The token budget for a thinking level: the user's `thinking.budgets`
/// entry wins, else the defaults; `xhigh` and `max` fold to `high`.
pub fn thinking_budget(level: ThinkingLevel, budgets: &[(String, u32)]) -> (r: u32)
    ensures
        r == budget_of(level, budget_views(budgets@)),
{
    let key = match level {
        ThinkingLevel::Minimal => "minimal",
        ThinkingLevel::Low => "low",
        ThinkingLevel::Medium => "medium",
        ThinkingLevel::High | ThinkingLevel::XHigh | ThinkingLevel::Max => "high",
        ThinkingLevel::Off => "off",
    };
    let k = chars_of(key);
    let ghost bv = budget_views(budgets@);
    let mut i: usize = 0;
    assert(bv.skip(0) =~= bv);
    proof {
        reveal_strlit("minimal");
        reveal_strlit("low");
        reveal_strlit("medium");
        reveal_strlit("high");
        reveal_strlit("off");
    }
    while i < budgets.len()
        invariant
            i <= budgets@.len(),
            bv == budget_views(budgets@),
            k@ == budget_key(level),
            budget_entry(bv, k@) == budget_entry(bv.skip(i as int), k@),
        decreases budgets@.len() - i,
    {
        assert(bv.skip(i as int).drop_first() =~= bv.skip(i + 1));
        let e = chars_of(budgets[i].0.as_str());
        assert(bv.skip(i as int)[0] == (budgets@[i as int].0@, budgets@[i as int].1));
        if chars_eq(&e, &k) {
            return budgets[i].1;
        }
        i = i + 1;
    }
    match level {
        ThinkingLevel::Minimal => 1024,
        ThinkingLevel::Low => 2048,
        ThinkingLevel::Medium => 8192,
        ThinkingLevel::High | ThinkingLevel::XHigh | ThinkingLevel::Max => 16384,
        ThinkingLevel::Off => 0,
    }
}

/// The output cap for a turn: `off` leaves the base; otherwise the base
/// plus the level's budget, capped at the model maximum when declared; a
/// missing base takes the model maximum.
pub open spec fn adjusted_max_output(base: Option<u32>, model_max: Option<u32>, level: ThinkingLevel, budget: u32) -> Option<u64> {
    if level == ThinkingLevel::Off {
        match base {
            Some(b) => Some(b as u64),
            None => None,
        }
    } else {
        match (base, model_max) {
            (Some(b), Some(m)) => Some(if b + budget < m { (b + budget) as u64 } else { m as u64 }),
            (Some(b), None) => Some((b + budget) as u64),
            (None, Some(m)) => Some(m as u64),
            (None, None) => None,
        }
    }
}

/// The output cap after reserving the thinking budget.
pub fn thinking_adjusted_max_output(
    base: Option<u32>,
    model_max: Option<u32>,
    level: ThinkingLevel,
    budgets: &[(String, u32)],
) -> (r: Option<u64>)
    ensures
        r == adjusted_max_output(base, model_max, level, budget_of(level, budget_views(budgets@))),
{
    if level == ThinkingLevel::Off {
        return match base {
            Some(b) => Some(b as u64),
            None => None,
        };
    }
    let budget = thinking_budget(level, budgets) as u64;
    match (base, model_max) {
        (Some(b), Some(m)) => {
            let sum = b as u64 + budget;
            Some(if sum < m as u64 { sum } else { m as u64 })
        },
        (Some(b), None) => Some(b as u64 + budget),
        (None, Some(m)) => Some(m as u64),
        (None, None) => None,
    }
}

/// A thinking level never lifts the cap past a declared model maximum,
/// and without one it adds exactly the budget; `off` keeps the base.
pub proof fn lemma_cap_bounds(base: Option<u32>, model_max: Option<u32>, level: ThinkingLevel, budget: u32)
    ensures
        level == ThinkingLevel::Off ==> adjusted_max_output(base, model_max, level, budget) == match base {
            Some(b) => Some(b as u64),
            None => None::<u64>,
        },
        level != ThinkingLevel::Off && model_max is Some ==> (adjusted_max_output(base, model_max, level, budget)
            matches Some(c) && c <= model_max->0),
        level != ThinkingLevel::Off && model_max is None && base is Some ==> adjusted_max_output(
            base,
            model_max,
            level,
            budget,
        ) == Some((base->0 + budget) as u64),
{
}

} // verus!

//! The reflector's user prompt: the log with its group tags stripped, the
//! escalating compression guidance, and the frozen-prefix framing for a
//! compacted child; and the list-item rule for untagged reflector output.

use crate::om::groups::{strip_observation_groups, strip_ok, stripped};
use crate::text::{
    chars_of, find, find_in_suffix, lemma_find_from_props, matches_at, trim_bounds, trim_start,
};
use vstd::prelude::*;

verus! {

/// Compression guidance per level 1 to 4 (level 0 asks for none).
pub const COMPRESSION_GUIDANCE: [&'static str; 4] = [
    r#"
## COMPRESSION REQUIRED

Your previous reflection was the same size or larger than the original observations.

Please re-process with slightly more compression:
- Towards the beginning, condense more observations into higher-level reflections
- Closer to the end, retain more fine details (recent context matters more)
- Memory is getting long - use a more condensed style throughout
- Combine related items more aggressively but do not lose important specific details of names, places, events, and people
- Combine repeated similar tool calls (e.g. multiple file views, searches, or edits in the same area) into a single summary line describing what was explored/changed and the outcome
- Preserve ✅ completion markers — they are memory signals that tell the assistant what is already resolved and help prevent repeated work
- Preserve the concrete resolved outcome captured by ✅ markers so the assistant knows what exactly is done

Aim for a 8/10 detail level.
"#,
    r#"
## AGGRESSIVE COMPRESSION REQUIRED

Your previous reflection was still too large after compression guidance.

Please re-process with much more aggressive compression:
- Towards the beginning, heavily condense observations into high-level summaries
- Closer to the end, retain fine details (recent context matters more)
- Memory is getting very long - use a significantly more condensed style throughout
- Combine related items aggressively but do not lose important specific details of names, places, events, and people
- Combine repeated similar tool calls (e.g. multiple file views, searches, or edits in the same area) into a single summary line describing what was explored/changed and the outcome
- If the same file or module is mentioned across many observations, merge into one entry covering the full arc
- Preserve ✅ completion markers — they are memory signals that tell the assistant what is already resolved and help prevent repeated work
- Preserve the concrete resolved outcome captured by ✅ markers so the assistant knows what exactly is done
- Remove redundant information and merge overlapping observations

Aim for a 6/10 detail level.
"#,
    r#"
## CRITICAL COMPRESSION REQUIRED

Your previous reflections have failed to compress sufficiently after multiple attempts.

Please re-process with maximum compression:
- Summarize the oldest observations (first 50-70%) into brief high-level paragraphs — only key facts, decisions, and outcomes
- For the most recent observations (last 30-50%), retain important details but still use a condensed style
- Ruthlessly merge related observations — if 10 observations are about the same topic, combine into 1-2 lines
- Combine all tool call sequences (file views, searches, edits, builds) into outcome-only summaries — drop individual steps entirely
- Drop procedural details (tool calls, retries, intermediate steps) — keep only final outcomes
- Drop observations that are no longer relevant or have been superseded by newer information
- Preserve ✅ completion markers — they are memory signals that tell the assistant what is already resolved and help prevent repeated work
- Preserve the concrete resolved outcome captured by ✅ markers so the assistant knows what exactly is done
- Preserve: names, dates, decisions, errors, user preferences, and architectural choices

Aim for a 4/10 detail level.
"#,
    r#"
## EXTREME COMPRESSION REQUIRED

Multiple compression attempts have failed. The content may already be dense from a prior reflection.

You MUST dramatically reduce the number of observations while keeping the standard observation format (date groups with bullet points and priority emojis):
- Tool call observations are the biggest source of bloat. Collapse ALL tool call sequences into outcome-only observations — e.g. 10 observations about viewing/searching/editing files become 1 observation about what was actually learned or achieved (e.g. "Investigated auth module and found token validation was skipping expiry check")
- Never preserve individual tool calls (viewed file X, searched for Y, ran build) — only preserve what was discovered or accomplished
- Consolidate many related observations into single, more generic observations
- Merge all same-day date groups into at most 2-3 date groups per day
- For older content, each topic or task should be at most 1-2 observations capturing the key outcome
- For recent content, retain more detail but still merge related items aggressively
- If multiple observations describe incremental progress on the same task, keep only the final state
- Preserve ✅ completion markers and their outcomes but merge related completions into fewer lines
- Preserve: user preferences, key decisions, architectural choices, and unresolved issues

Aim for a 2/10 detail level. Fewer, more generic observations are better than many specific ones that exceed the budget.
"#,
];

/// The guidance text for a level from 1 to 4.
pub open spec fn guidance(level: u8) -> Seq<char> {
    COMPRESSION_GUIDANCE[level - 1]@
}

pub open spec fn prompt_head() -> Seq<char> {
    "## OBSERVATIONS TO REFLECT ON\n\n"@
}

pub open spec fn prompt_tail() -> Seq<char> {
    "\n\n---\n\nPlease analyze these observations and produce a refined, condensed version that will become the assistant's entire memory going forward."@
}

/// The reflection prompt: the stripped log between the fixed head and
/// tail, then a blank line and the guidance for levels 1 to 4.
pub open spec fn reflector_prompt(observations: Seq<char>, level: u8) -> Seq<char> {
    let base = prompt_head() + stripped(observations) + prompt_tail();
    if 1 <= level <= 4 {
        base + "\n\n"@ + guidance(level)
    } else {
        base
    }
}

/// The user prompt for a reflection pass: the observations with group tags
/// stripped, then the compression guidance for the level (0 = none).
pub fn build_reflector_prompt(observations: &str, compression_level: u8) -> (r: String)
    requires
        strip_ok(observations@),
    ensures
        r@ == reflector_prompt(observations@, compression_level),
{
    let view = strip_observation_groups(observations);
    let mut prompt = String::from_str("## OBSERVATIONS TO REFLECT ON\n\n");
    prompt.append(view.as_str());
    prompt.append("\n\n---\n\nPlease analyze these observations and produce a refined, condensed version that will become the assistant's entire memory going forward.",
    );
    if 1 <= compression_level && compression_level <= 4 {
        prompt.append("\n\n");
        let g: &str = COMPRESSION_GUIDANCE[(compression_level - 1) as usize];
        prompt.append(g);
    }
    prompt
}

pub open spec fn frozen_head() -> Seq<char> {
    "<frozen-prefix>\n"@
}

pub open spec fn frozen_note() -> Seq<char> {
    "\n</frozen-prefix>\n\nThe text inside <frozen-prefix> is a frozen memory prefix that must remain byte-verbatim. It is not part of the observations to reflect on.\n\n"@
}

/// The reflector prompt for a compacted child: the frozen prefix inside a
/// marker with a keep-verbatim note, then the prompt over the managed
/// suffix only.
pub fn build_reflector_prompt_frozen(prefix: &str, observations: &str, compression_level: u8) -> (r: String)
    requires
        strip_ok(observations@),
    ensures
        r@ == frozen_head() + prefix@ + frozen_note() + reflector_prompt(observations@, compression_level),
{
    let mut prompt = String::from_str("<frozen-prefix>\n");
    prompt.append(prefix);
    prompt.append("\n</frozen-prefix>\n\nThe text inside <frozen-prefix> is a frozen memory prefix that must remain byte-verbatim. It is not part of the observations to reflect on.\n\n",
    );
    let rest = build_reflector_prompt(observations, compression_level);
    prompt.append(rest.as_str());
    prompt
}

/// A reflector list item: after leading whitespace, a `-` or `*` bullet, or
/// a run of decimal digits and a `.`, followed by a space.
pub open spec fn is_list_item(line: Seq<char>) -> bool {
    let t = trim_start(line);
    if t.len() > 0 && (t[0] == '-' || t[0] == '*') {
        t.len() > 1 && t[1] == ' '
    } else {
        match find(t, seq!['.']) {
            Some(d) => d > 0 && (forall|i: int| 0 <= i < d ==> '0' <= #[trigger] t[i] <= '9') && d + 1
                < t.len() && t[d + 1] == ' ',
            None => false,
        }
    }
}

/// Whether a line of untagged reflector output is a list item.
pub fn is_reflector_list_item(line: &str) -> (r: bool)
    ensures
        r == is_list_item(line@),
{
    let v = crate::text::chars_of(line);
    let (a, _b) = trim_bounds(&v, 0, v.len());
    let n = v.len();
    let ghost t = trim_start(line@);
    proof {
        assert(v@.subrange(0, v@.len() as int) =~= v@);
        assert(v@.subrange(a as int, n as int) =~= v@.skip(a as int));
    }
    if a < n && (v[a] == '-' || v[a] == '*') {
        return a + 1 < n && v[a + 1] == ' ';
    }
    let dot = vec!['.'];
    match find_in_suffix(&v, &dot, a) {
        None => {
            assert(dot@ =~= seq!['.']);
            false
        },
        Some(d) => {
            proof {
                assert(dot@ =~= seq!['.']);
                lemma_find_from_props(t, seq!['.'], 0);
            }
            if d == 0 {
                return false;
            }
            let mut i: usize = 0;
            while i < d
                invariant
                    a + d < n == v@.len(),
                    t == v@.skip(a as int),
                    t == trim_start(line@),
                    find(t, seq!['.']) == Some(d as int),
                    !(t.len() > 0 && (t[0] == '-' || t[0] == '*')),
                    i <= d,
                    forall|k: int| 0 <= k < i ==> '0' <= #[trigger] t[k] <= '9',
                decreases d - i,
            {
                let c = v[a + i];
                if !('0' <= c && c <= '9') {
                    assert(t[i as int] == c);
                    assert(!('0' <= t[i as int] <= '9'));
                    return false;
                }
                i = i + 1;
            }
            a + d + 1 < n && v[a + d + 1] == ' '
        },
    }
}

} // verus!

use tau_core::om::{parse_observation_groups, wrap_in_observation_group, OmRecord, OmThresholds};
use tau_core::om_integration::{
    branch_entries, current_record_entry, entry_text, idle_gap_secs, is_raw, recall, recall_checked, seed_compacted_child, transcript, EntryInfo, OmState, TurnEndAction,
};

/// The default configuration: 30k / 40k thresholds, a 6k buffering
/// increment and a 6k retention floor.
fn default_state(record: OmRecord) -> OmState {
    let thresholds = OmThresholds { observe_threshold: 30_000, reflect_threshold: 40_000, share_token_budget: false };
    OmState::new(thresholds, 6_000, 6_000, record)
}

fn entry(id: &str, parent: Option<&str>, ts: u64, kind: &str, text: &str) -> EntryInfo {
    EntryInfo {
        id: id.to_owned(),
        parent: parent.map(str::to_owned),
        timestamp: ts,
        kind: kind.to_owned(),
        text: Some(text.to_owned()),
        reasoning: None,
        output: None,
        note: None,
    }
}

/// A chain of `n` user entries of `chars_each` characters, numbered as a
/// fresh session file numbers them (the first append precedes the load).
fn text_entries(n: usize, chars_each: usize) -> Vec<EntryInfo> {
    let mut out: Vec<EntryInfo> = Vec::new();
    let mut parent: Option<String> = None;
    for i in 0..n {
        let num = if i == 0 { 0 } else { i + 1 };
        let id = format!("{:08}", num);
        out.push(entry(&id, parent.as_deref(), 1_000 + i as u64, "user", &"w".repeat(chars_each)));
        parent = Some(id);
    }
    out
}

fn leaf(entries: &[EntryInfo]) -> Option<String> {
    entries.last().map(|e| e.id.clone())
}

#[test]
fn plan_picks_observe_at_activation_and_commit_advances_the_cursor() {
    let entries = text_entries(3, 100);
    let leaf_id = leaf(&entries);
    let mut state = default_state(OmRecord::default());
    state.record.pending_tokens = state.thresholds.observe_threshold;
    let unobserved = state.unobserved(&entries, leaf_id.as_deref());
    match state.plan(&unobserved) {
        TurnEndAction::Observe { .. } => {}
        other => panic!("expected Observe, got {other:?}"),
    }
    let mut action = TurnEndAction::Observe { transcript: String::new() };
    let saved = state.commit(
        &mut action,
        "user is setting up a workbench",
        false,
        true,
        true,
        &entries,
        leaf_id.as_deref(),
        "1700000000000",
    );
    assert!(saved);
    assert_eq!(action, TurnEndAction::Done);
    let cursor = state.record.cursor.clone().unwrap();
    assert_eq!(cursor.entry_id, "00000003");
    let groups = parse_observation_groups(&state.record.active_observations);
    assert_eq!(groups.len(), 1);
    assert_eq!(groups[0].range, "00000000:00000003");
    assert!(groups[0].content.contains("workbench"));
    assert_eq!(state.record.pending_tokens, 0);
}

#[test]
fn plan_buffers_below_activation_and_commit_holds_the_chunk() {
    let entries = text_entries(25, 1000);
    let leaf_id = leaf(&entries);
    let mut state = default_state(OmRecord::default());
    // 25k tokens: below the 30k threshold, past the 6k increment.
    state.record.pending_tokens = 25_000;
    let unobserved = state.unobserved(&entries, leaf_id.as_deref());
    match state.plan(&unobserved) {
        TurnEndAction::Buffer { .. } => {}
        other => panic!("expected Buffer, got {other:?}"),
    }
    let mut action = TurnEndAction::Buffer { transcript: String::new() };
    let saved = state.commit(&mut action, "chunk", false, true, true, &entries, leaf_id.as_deref(), "1");
    assert!(!saved);
    assert_eq!(state.buffered.len(), 1);
    assert!(state.record.active_observations.is_empty());
    assert!(state.record.cursor.is_none());
}

#[test]
fn plan_reflects_at_the_observation_threshold_and_commit_rewrites_the_suffix() {
    let entries = text_entries(1, 100);
    let leaf_id = leaf(&entries);
    let prefix = "FROZEN PARENT LOG".to_owned();
    let suffix = wrap_in_observation_group(&"x".repeat(4000), "00000001:00000002", "b", None);
    let mut state = default_state(OmRecord {
        frozen_prefix: prefix.clone(),
        active_observations: suffix,
        observation_tokens: 40_000,
        ..Default::default()
    });
    match state.plan(&[]) {
        TurnEndAction::Reflect { level } => assert_eq!(level, 0),
        other => panic!("expected Reflect, got {other:?}"),
    }
    // Only the reflector's <observations> content reaches the commit; the
    // <current-task> and <suggested-response> sections never do.
    let mut action = TurnEndAction::Reflect { level: 0 };
    let saved = state.commit(&mut action, "condensed suffix", false, true, true, &entries, leaf_id.as_deref(), "1");
    assert!(saved);
    assert_eq!(action, TurnEndAction::Done);
    assert_eq!(state.record.frozen_prefix, prefix);
    assert_eq!(state.record.generation, 1);
    let suffix = &state.record.active_observations;
    assert!(suffix.contains("condensed suffix"), "{suffix:?}");
    assert!(!suffix.contains("<observations>"), "{suffix:?}");
    assert!(!suffix.contains("<current-task>"), "{suffix:?}");
    assert!(!suffix.contains("<suggested-response>"), "{suffix:?}");
    assert!(!suffix.contains("finish the refactor"), "{suffix:?}");
    assert!(!suffix.contains("report the summary"), "{suffix:?}");
    assert_eq!(state.record.live_observations(), format!("{}{}", prefix, state.record.active_observations));
}

#[test]
fn commit_escalates_a_rejected_reflection_level() {
    let entries = text_entries(1, 100);
    let leaf_id = leaf(&entries);
    let mut state = default_state(OmRecord { active_observations: "y".repeat(400), ..Default::default() });
    // Bigger than the source.
    let reflection = "z".repeat(800);
    let mut action = TurnEndAction::Reflect { level: 0 };
    let saved = state.commit(&mut action, &reflection, false, true, true, &entries, leaf_id.as_deref(), "1");
    assert!(!saved);
    match action {
        TurnEndAction::Reflect { level } => assert_eq!(level, 1),
        other => panic!("expected escalated Reflect, got {other:?}"),
    }
    assert_eq!(state.record.generation, 0);
}

#[test]
fn commit_keeps_the_cursor_on_degenerate_observation_output() {
    let entries = text_entries(3, 100);
    let leaf_id = leaf(&entries);
    let mut state = default_state(OmRecord::default());
    // 100 identical lines: the observer's output parser flags the shape
    // as degenerate.
    let body = (0..100).map(|_| "the same observation line").collect::<Vec<_>>().join("\n");
    let mut action = TurnEndAction::Observe { transcript: String::new() };
    let saved = state.commit(&mut action, &body, true, true, true, &entries, leaf_id.as_deref(), "1");
    assert!(!saved);
    assert_eq!(action, TurnEndAction::Done);
    assert!(state.record.cursor.is_none());
    assert!(state.record.active_observations.is_empty());
}

#[test]
fn the_overflow_ladder_demotes_the_prefix_and_readmits_it() {
    let thresholds = OmThresholds { observe_threshold: 30_000, reflect_threshold: 100, share_token_budget: false };
    let mut state = OmState::new(
        thresholds,
        6_000,
        6_000,
        OmRecord {
            // 100 tokens each.
            frozen_prefix: "a".repeat(400),
            active_observations: "b".repeat(400),
            ..Default::default()
        },
    );
    // 200 combined tokens over the 100 budget: the prefix demotes out of
    // the live context (it stays in the record).
    state.maintain_prefix_budget();
    assert!(state.record.prefix_demoted);
    assert_eq!(state.record.live_observations(), "b".repeat(400));
    // The suffix falls under the budget: the prefix comes back.
    state.record.active_observations = "b".repeat(40);
    state.record.observation_tokens = 10;
    state.maintain_prefix_budget();
    assert!(!state.record.prefix_demoted);
    assert_eq!(state.record.live_observations(), format!("{}{}", "a".repeat(400), "b".repeat(40)));
}

#[test]
fn raw_window_prunes_to_the_floor_and_keeps_tool_results_attached() {
    // user (225 tokens), tool call, tool result, user (225): 470 total
    // over the 230-token floor, with the prune boundary landing on the
    // tool run.
    let all = vec![
        entry("00000000", None, 1, "user", &"a".repeat(900)),
        entry("00000002", Some("00000000"), 2, "tool", "call"),
        entry("00000003", Some("00000002"), 3, "tool", "result"),
        entry("00000004", Some("00000003"), 4, "user", &"c".repeat(900)),
    ];
    let leaf_id = leaf(&all);
    let thresholds = OmThresholds { observe_threshold: 1000, reflect_threshold: 2000, share_token_budget: false };
    let state = OmState::new(thresholds, 230, 230, OmRecord::default());
    let window = state.raw_window_from(&all, leaf_id.as_deref());
    assert_eq!(window.len(), 1, "{:?}", window);
    assert_eq!(window[0].kind, "user");
    assert_eq!(window[0].text.as_deref(), Some("c".repeat(900).as_str()));
    assert!(state.pending_tokens(&window) <= 230);
    // Below the floor: nothing is pruned.
    let thresholds2 = OmThresholds { observe_threshold: 30_000, reflect_threshold: 40_000, share_token_budget: false };
    let state2 = OmState::new(thresholds2, 6_000, 6_000, OmRecord::default());
    assert_eq!(state2.raw_window_from(&all, leaf_id.as_deref()).len(), all.len());
}

#[test]
fn the_idle_gap_measures_the_pause_before_the_current_turn() {
    let mk = |id: &str, parent: Option<&str>, ts: u64, kind: &str| entry(id, parent, ts, kind, "x");
    // Turn 1 (user + assistant), a 90-second pause, then the current
    // turn (user + assistant).
    let entries = vec![
        mk("00000001", None, 1_000, "user"),
        mk("00000002", Some("00000001"), 2_000, "assistant"),
        mk("00000003", Some("00000002"), 92_000, "user"),
        mk("00000004", Some("00000003"), 93_000, "assistant"),
    ];
    assert_eq!(idle_gap_secs(&entries, Some("00000004")), 90);
    // The gap uses the turn's first user entry: a steering sent inside
    // the turn doesn't shrink the measured pause.
    let entries = vec![
        mk("00000001", None, 1_000, "user"),
        mk("00000002", Some("00000001"), 2_000, "assistant"),
        mk("00000003", Some("00000002"), 92_000, "user"),
        mk("00000004", Some("00000003"), 92_500, "user"),
        mk("00000005", Some("00000004"), 93_000, "assistant"),
    ];
    assert_eq!(idle_gap_secs(&entries, Some("00000005")), 90);
    // A fresh session (branch starts with the turn's user entry): zero.
    let fresh = vec![mk("00000001", None, 1_000, "user"), mk("00000002", Some("00000001"), 2_000, "assistant")];
    assert_eq!(idle_gap_secs(&fresh, Some("00000002")), 0);
}

#[test]
fn the_branch_walks_parents_from_the_leaf_to_the_root() {
    let entries = vec![
        entry("00000001", None, 1, "user", "root"),
        entry("00000002", Some("00000001"), 2, "assistant", "left"),
        entry("00000003", Some("00000001"), 3, "assistant", "right"),
        entry("00000004", Some("00000003"), 4, "user", "tip"),
    ];
    let branch = branch_entries(&entries, Some("00000004"));
    let ids: Vec<&str> = branch.iter().map(|e| e.id.as_str()).collect();
    assert_eq!(ids, vec!["00000001", "00000003", "00000004"]);
    // No leaf: an empty branch.
    assert!(branch_entries(&entries, None).is_empty());
    // An unknown leaf: an empty branch too.
    assert!(branch_entries(&entries, Some("99999999")).is_empty());
}

#[test]
fn entry_text_falls_back_to_reasoning_and_output() {
    let mut e = entry("1", None, 1, "tool", "");
    e.reasoning = Some("thinking".to_owned());
    e.output = Some("done".to_owned());
    assert_eq!(entry_text(&e), "thinking\ndone");
    e.reasoning = Some(String::new());
    assert_eq!(entry_text(&e), "done");
    e.text = Some("said".to_owned());
    assert_eq!(entry_text(&e), "said");
    assert!(is_raw(&e));
    assert!(!is_raw(&entry("2", None, 1, "om", "record")));
}

#[test]
fn the_transcript_skips_blank_entries() {
    let entries = vec![
        entry("1", None, 1, "user", "hello"),
        entry("2", Some("1"), 2, "assistant", "   "),
        entry("3", Some("2"), 3, "tool", "ran"),
    ];
    assert_eq!(transcript(&entries), "[user] hello\n[tool] ran\n");
}

#[test]
fn a_buffered_observation_is_promoted_at_activation() {
    let entries = text_entries(4, 4000);
    let leaf_id = leaf(&entries);
    let thresholds = OmThresholds { observe_threshold: 4000, reflect_threshold: 40_000, share_token_budget: false };
    let mut state = OmState::new(thresholds, 800, 1000, OmRecord::default());
    state.record.pending_tokens = 4000;
    let mut action = TurnEndAction::Buffer { transcript: String::new() };
    state.commit(&mut action, "first chunk", false, true, true, &entries, leaf_id.as_deref(), "1");
    assert_eq!(state.buffered.len(), 1);
    assert_eq!(state.buffered[0].range, ("00000000".to_owned(), "00000004".to_owned()));
    // A second run covers nothing new: the buffer cursor is at the leaf.
    let mut again = TurnEndAction::Buffer { transcript: String::new() };
    state.commit(&mut again, "second chunk", false, true, true, &entries, leaf_id.as_deref(), "1");
    assert_eq!(state.buffered.len(), 1);
    // Activation promotes the chunk: the cursor moves to its range end.
    assert!(state.promote("2"));
    assert!(state.buffered.is_empty());
    assert_eq!(state.record.cursor.clone().unwrap().entry_id, "00000004");
    assert!(state.record.active_observations.contains("first chunk"));
    assert_eq!(state.record.pending_tokens, 0);
    assert!(state.changed);
    // Nothing left to promote.
    assert!(!state.promote("3"));
}

#[test]
fn a_rejected_reflection_at_the_top_level_gives_up() {
    let entries = text_entries(1, 100);
    let mut state = default_state(OmRecord { active_observations: "y".repeat(400), ..Default::default() });
    let mut action = TurnEndAction::Reflect { level: 4 };
    state.commit(&mut action, &"z".repeat(800), false, true, true, &entries, Some("00000000"), "1");
    assert_eq!(action, TurnEndAction::Done);
    // An incomplete stream leaves the level to retry.
    let mut retry = TurnEndAction::Reflect { level: 2 };
    state.commit(&mut retry, &"z".repeat(800), false, false, true, &entries, Some("00000000"), "1");
    assert_eq!(retry, TurnEndAction::Reflect { level: 2 });
}

#[test]
fn recall_browses_group_ranges_and_reports_missing_things() {
    let mut entries = text_entries(5, 10);
    // A long-text entry: the preview is capped at 200 chars.
    entries.push(entry("00000006", Some("00000005"), 2_000, "user", &"l".repeat(300)));
    let g1 = wrap_in_observation_group("first obs", "00000000:00000002", "a", None);
    let g2 = wrap_in_observation_group("merged obs", "00000003:00000004,00000005:00000006", "b", None);
    let record = OmRecord { active_observations: format!("{g1}\n\n{g2}"), ..Default::default() };
    // Simple range: exactly its two entries.
    let out = recall(&record, Some("a"), Some(&entries));
    assert!(out.contains("00000000"), "{out}");
    assert!(out.contains("00000002"), "{out}");
    assert!(!out.contains("00000003"), "{out}");
    // Merged span: first segment's start to the last segment's end.
    let out = recall(&record, Some("b"), Some(&entries));
    for id in ["00000003", "00000004", "00000005", "00000006"] {
        assert!(out.contains(id), "{out}");
    }
    assert!(!out.contains("00000002"), "{out}");
    // The 200-char preview.
    assert!(out.contains(&"l".repeat(200)), "{out}");
    assert!(!out.contains(&"l".repeat(201)), "{out}");
    // Not-found paths: no arg, unknown group, rangeless group, and a
    // range pointing outside this session (a parent-scoped group).
    assert!(recall(&record, None, Some(&entries)).contains("missing"));
    assert!(recall(&record, Some("nope"), Some(&entries)).contains("no observation group"));
    let no_range = OmRecord {
        active_observations: "<observation-group id=\"c\" range=\",\">orphan</observation-group>".into(),
        ..Default::default()
    };
    assert!(recall(&no_range, Some("c"), Some(&entries)).contains("no range"));
    let foreign = OmRecord {
        active_observations: wrap_in_observation_group("foreign", "99999999:99999999", "d", None),
        ..Default::default()
    };
    assert!(recall(&foreign, Some("d"), Some(&entries)).contains("not in this session"));
}

#[test]
fn recall_reads_the_frozen_prefix_and_reports_a_failed_read() {
    let entries = text_entries(3, 10);
    let record = OmRecord {
        frozen_prefix: wrap_in_observation_group("parent", "00000000:00000002", "p", None),
        prefix_demoted: true,
        ..Default::default()
    };
    assert_eq!(recall(&record, Some("p"), Some(&entries)), format!("00000000 user {}\n00000002 user {}\n", "w".repeat(10), "w".repeat(10)));
    assert_eq!(recall(&record, Some("p"), None), "session read failed");
    // An end outside the session: the span runs through the last entry.
    let open_end = OmRecord {
        active_observations: wrap_in_observation_group("tail", "00000002:99999999", "t", None),
        ..Default::default()
    };
    assert_eq!(recall(&open_end, Some("t"), Some(&entries)), format!("00000002 user {}\n00000003 user {}\n", "w".repeat(10), "w".repeat(10)));
}

#[test]
fn recall_checked_refuses_what_cannot_be_walked() {
    let entries = text_entries(3, 10);
    // A tag whose attributes close after its closing tag.
    let broken = OmRecord {
        active_observations: "<observation-group id=\"a\" </observation-group> range=\"x\">".into(),
        ..Default::default()
    };
    assert_eq!(recall_checked(&broken, Some("a"), Some(&entries)), None);
    // A range whose end precedes its start.
    let reversed = OmRecord {
        active_observations: wrap_in_observation_group("r", "00000003:00000000", "r", None),
        ..Default::default()
    };
    assert_eq!(recall_checked(&reversed, Some("r"), Some(&entries)), None);
    let fine = OmRecord {
        active_observations: wrap_in_observation_group("f", "00000000:00000002", "f", None),
        ..Default::default()
    };
    assert_eq!(recall_checked(&fine, Some("f"), Some(&entries)), Some(recall(&fine, Some("f"), Some(&entries))));
    assert_eq!(recall_checked(&reversed, None, Some(&entries)), Some("recall: missing \"group\"".to_owned()));
}

#[test]
fn seed_compacted_child_stores_the_snapshot_and_returns_the_frozen_prefix() {
    let parent_record = OmRecord {
        frozen_prefix: "grandparent log".into(),
        active_observations: wrap_in_observation_group("parent log", "00000000:00000001", "p", None),
        ..Default::default()
    };
    let (child, range) = seed_compacted_child(&parent_record);
    // The child's record carries the parent's full log verbatim.
    assert_eq!(child.frozen_prefix, format!("grandparent log{}", parent_record.active_observations));
    assert!(child.active_observations.is_empty());
    // The spawn-snapshot entry covers the log's range.
    assert_eq!(range.as_deref(), Some("00000000:00000001"));
    // An empty parent log: no snapshot entry, empty prefix.
    let (rec2, range2) = seed_compacted_child(&OmRecord::default());
    assert!(rec2.frozen_prefix.is_empty());
    assert!(range2.is_none());
}

#[test]
fn the_current_record_is_the_last_om_entry_on_the_branch() {
    let entries = vec![
        entry("1", None, 1, "user", "a"),
        entry("2", Some("1"), 2, "om", "first"),
        entry("3", Some("2"), 3, "user", "b"),
        entry("4", Some("1"), 4, "om", "other branch"),
        entry("5", Some("3"), 5, "assistant", "c"),
    ];
    assert_eq!(current_record_entry(&entries, Some("5")).map(|e| e.id), Some("2".to_owned()));
    assert_eq!(current_record_entry(&entries, Some("4")).map(|e| e.id), Some("4".to_owned()));
    assert_eq!(current_record_entry(&entries, Some("1")), None);
}

use tau_core::om::groups::groups_well_formed;
use tau_core::om::{
    append_observation, build_reflector_prompt, build_reflector_prompt_frozen, combine_group_ranges,
    derive_group_provenance, fork_record, generate_group_id, is_reflector_list_item, message_boundary,
    parse_observation_groups, projected_message_removal, reconcile_groups_from_reflection,
    render_groups_for_reflection, should_observe, should_reflect, split_observation_chunks,
    strip_observation_groups, token_count, validate_compression, wrap_in_observation_group, ChunkTokens,
    Cursor, ObservationGroup, OmRecord, OmThresholds, COMPRESSION_GUIDANCE,
};

/// The default trigger thresholds: 30k unobserved tokens, 40k observation
/// tokens, no shared budget.
fn defaults() -> OmThresholds {
    OmThresholds { observe_threshold: 30_000, reflect_threshold: 40_000, share_token_budget: false }
}

/// The default retention floor: 20% of the 30k observer threshold.
const FLOOR: u32 = 6_000;

#[test]
fn observer_fires_at_threshold_and_only_above() {
    let c = defaults();
    assert!(!should_observe(29_999, 0, &c));
    assert!(should_observe(30_000, 0, &c));
    assert!(should_observe(31_000, 0, &c));
}

#[test]
fn observer_threshold_is_configurable() {
    let c = OmThresholds { observe_threshold: 10_000, ..defaults() };
    assert!(!should_observe(9_999, 0, &c));
    assert!(should_observe(10_000, 0, &c));
}

#[test]
fn reflector_fires_at_threshold_and_only_above() {
    let c = defaults();
    assert!(!should_reflect(39_999, &c));
    assert!(should_reflect(40_000, &c));
}

#[test]
fn reflector_threshold_is_configurable() {
    let c = OmThresholds { reflect_threshold: 5_000, ..defaults() };
    assert!(!should_reflect(4_999, &c));
    assert!(should_reflect(5_000, &c));
}

#[test]
fn dynamic_threshold_uses_the_worked_example() {
    let c = OmThresholds { share_token_budget: true, ..defaults() };
    assert_eq!(c.observe_threshold_for(0), 70_000);
    assert_eq!(c.observe_threshold_for(10_000), 60_000);
    assert_eq!(c.observe_threshold_for(40_000), 30_000);
    assert_eq!(c.observe_threshold_for(100_000), 30_000);
}

#[test]
fn observer_guard_shrinks_with_the_observation_log() {
    let c = OmThresholds { share_token_budget: true, ..defaults() };
    assert!(should_observe(35_000, 40_000, &c));
    assert!(!should_observe(29_999, 40_000, &c));
    let c = defaults();
    assert!(should_observe(30_000, 40_000, &c));
    assert!(!should_observe(29_999, 40_000, &c));
}

#[test]
fn fixed_threshold_ignores_observation_size() {
    let c = defaults();
    assert_eq!(c.observe_threshold_for(0), 30_000);
    assert_eq!(c.observe_threshold_for(50_000), 30_000);
}

#[test]
fn projected_removal_prefers_the_nearest_over_boundary() {
    let chunks = vec![ChunkTokens(6_000); 5];
    assert_eq!(projected_message_removal(&chunks, FLOOR, 30_000), 24_000);
}

#[test]
fn projected_removal_falls_back_under_when_overshoot_exceeds_95_percent_of_floor() {
    let chunks = vec![ChunkTokens(10_000), ChunkTokens(20_000)];
    assert_eq!(projected_message_removal(&chunks, FLOOR, 30_000), 10_000);
}

#[test]
fn projected_removal_noop_within_the_floor() {
    let chunks = vec![ChunkTokens(6_000); 5];
    assert_eq!(projected_message_removal(&chunks, FLOOR, 6_000), 0);
    assert_eq!(projected_message_removal(&[], FLOOR, 30_000), 0);
}

#[test]
fn record_defaults_are_empty() {
    let r = OmRecord::default();
    assert!(r.frozen_prefix.is_empty());
    assert!(r.active_observations.is_empty());
    assert!(r.cursor.is_none());
    assert_eq!(r.generation, 0);
}

#[test]
fn frozen_prefix_survives_a_reflection_pass_verbatim() {
    let prefix = "Date: Nov 30, 2025\n* 🔴 (10:00) Frozen parent observation";
    let suffix = wrap_in_observation_group(
        "Date: Dec 4, 2025\n* 🔴 (14:30) User prefers direct answers",
        "00000001:00000005",
        "aaaaaaaaaaaaaaaa",
        None,
    );
    let mut record = OmRecord {
        frozen_prefix: prefix.to_owned(),
        active_observations: suffix.clone(),
        ..Default::default()
    };
    let prompt = build_reflector_prompt(record.reflect_source(), 1);
    assert!(!prompt.contains("Frozen parent observation"));
    assert!(prompt.contains("User prefers direct answers"));
    let reflected =
        "## Group `aaaaaaaaaaaaaaaa`\nDate: Dec 4, 2025\n* 🔴 (14:30) User prefers direct answers";
    let reconciled = reconcile_groups_from_reflection(reflected, &suffix).unwrap();
    record.active_observations = reconciled;
    record.generation += 1;
    assert_eq!(record.frozen_prefix, prefix);
    assert_eq!(record.live_observations(), format!("{}{}", prefix, record.active_observations));
}

#[test]
fn frozen_prefix_is_excluded_from_reflection_accounting() {
    let c = OmThresholds { reflect_threshold: 100, ..defaults() };
    let record = OmRecord {
        frozen_prefix: "x".repeat(400),
        active_observations: "y".repeat(40),
        observation_tokens: 10,
        ..Default::default()
    };
    assert!(!should_reflect(record.observation_tokens, &c));
}

#[test]
fn token_count_is_a_soft_quarter_estimate() {
    assert_eq!(token_count(""), 0);
    assert_eq!(token_count("abcd"), 1);
    assert_eq!(token_count(&"x".repeat(40_000)), 10_000);
}

#[test]
fn append_observation_adds_a_boundary_delimiter() {
    let first = "Date: Dec 4, 2025\n* 🔴 (14:30) User prefers direct answers";
    let appended = append_observation(
        first,
        "2025-12-05T09:15:00Z",
        "Date: Dec 5, 2025\n* 🔴 (09:15) Continued work on feature X",
    );
    assert!(appended.contains("--- message boundary (2025-12-05T09:15:00Z) ---"));
    assert!(appended.trim_end().ends_with('X'));
    let chunks = split_observation_chunks(&appended);
    assert_eq!(chunks.len(), 2);
    assert!(chunks[0].starts_with("Date: Dec 4, 2025"));
    assert!(chunks[1].starts_with("Date: Dec 5, 2025"));
}

#[test]
fn split_observation_chunks_drops_empty_segments() {
    let log = format!("{}\n\n{}", "* 🟢 (10:00) info", message_boundary("2025-12-05T09:15:00Z"));
    assert_eq!(split_observation_chunks(&log).len(), 1);
    assert_eq!(split_observation_chunks("").len(), 0);
}

#[test]
fn fork_copies_observations_and_cursor_without_a_prefix() {
    let parent = OmRecord {
        frozen_prefix: "frozen".into(),
        active_observations: "live".into(),
        cursor: Some(Cursor { entry_id: "00000005".into(), timestamp: 7 }),
        generation: 3,
        observation_tokens: 42,
        pending_tokens: 9,
        prefix_demoted: false,
    };
    let fork = fork_record(&parent);
    assert!(fork.frozen_prefix.is_empty());
    assert_eq!(fork.active_observations, "frozenlive");
    assert_eq!(fork.cursor, parent.cursor);
    assert_eq!(fork.generation, 3);
    let demoted = OmRecord { prefix_demoted: true, ..parent };
    let fork = fork_record(&demoted);
    assert_eq!(fork.active_observations, "frozenlive");
    assert!(!fork.prefix_demoted);
    assert!(fork.live_observations() == "frozenlive");
}

#[test]
fn validate_compression_requires_a_smaller_estimate() {
    assert!(validate_compression("abcdefgh", "abcd"));
    assert!(!validate_compression("abcdefgh", "abcdefgh"));
    assert!(!validate_compression("abc", "a"));
}

#[test]
fn group_wrap_parse_round_trip() {
    let wrapped = wrap_in_observation_group(
        "* 🔴 (14:30) User prefers direct answers",
        "00000001:00000012",
        "0123456789abcdef",
        None,
    );
    let groups = parse_observation_groups(&wrapped);
    assert_eq!(groups.len(), 1);
    assert_eq!(groups[0].id, "0123456789abcdef");
    assert_eq!(groups[0].range, "00000001:00000012");
    assert_eq!(groups[0].kind, None);
    assert_eq!(groups[0].content, "* 🔴 (14:30) User prefers direct answers");
}

#[test]
fn group_kind_is_preserved() {
    let wrapped = wrap_in_observation_group("x", "a:b", "id1234567890abcd", Some("reflection"));
    assert_eq!(parse_observation_groups(&wrapped)[0].kind.as_deref(), Some("reflection"));
}

#[test]
fn multiple_groups_parse_in_order() {
    let log = format!(
        "{}\n\n{}",
        wrap_in_observation_group("one", "00000001:00000005", "aaaaaaaaaaaaaaaa", None),
        wrap_in_observation_group("two", "00000006:00000010", "bbbbbbbbbbbbbbbb", None),
    );
    let groups = parse_observation_groups(&log);
    assert_eq!(groups.len(), 2);
    assert_eq!(groups[0].id, "aaaaaaaaaaaaaaaa");
    assert_eq!(groups[1].id, "bbbbbbbbbbbbbbbb");
    assert_eq!(strip_observation_groups(&log), "one\n\ntwo");
}

#[test]
fn combine_group_ranges_merges_a_span() {
    let groups = vec![
        ObservationGroup {
            id: "a".into(),
            range: "00000001:00000005".into(),
            kind: None,
            content: String::new(),
        },
        ObservationGroup {
            id: "b".into(),
            range: "00000006:00000010".into(),
            kind: None,
            content: String::new(),
        },
    ];
    assert_eq!(combine_group_ranges(&groups), "00000001:00000010");
}

#[test]
fn combine_group_ranges_collapses_to_first_start_last_end() {
    let groups = vec![ObservationGroup {
        id: "a".into(),
        range: "solo1,solo2".into(),
        kind: None,
        content: String::new(),
    }];
    assert_eq!(combine_group_ranges(&groups), "solo1:solo2");
    assert_eq!(combine_group_ranges(&[]), "");
}

#[test]
fn combine_group_ranges_skips_blank_segments_and_trims() {
    let groups = vec![
        ObservationGroup { id: "a".into(), range: " , 3:4 ,".into(), kind: None, content: String::new() },
        ObservationGroup { id: "b".into(), range: "5 : 6".into(), kind: None, content: String::new() },
    ];
    assert_eq!(combine_group_ranges(&groups), "3:6");
}

#[test]
fn render_groups_for_reflection_emits_group_sections() {
    let log = wrap_in_observation_group(
        "* 🔴 (14:30) User prefers direct answers",
        "00000001:00000012",
        "0123456789abcdef",
        None,
    );
    let rendered = render_groups_for_reflection(&log).unwrap();
    assert_eq!(
        rendered,
        "## Group `0123456789abcdef`\n_range: `00000001:00000012`_\n\n* 🔴 (14:30) User prefers direct answers"
    );
    assert_eq!(render_groups_for_reflection("plain log").unwrap_or_default(), "");
    assert!(render_groups_for_reflection("").is_none());
}

#[test]
fn render_keeps_the_text_between_groups() {
    let log = format!(
        "intro\n{}\noutro",
        wrap_in_observation_group("one", "1:2", "aaaaaaaaaaaaaaaa", None)
    );
    assert_eq!(
        render_groups_for_reflection(&log).unwrap(),
        "intro\n## Group `aaaaaaaaaaaaaaaa`\n_range: `1:2`_\n\none\noutro"
    );
}

#[test]
fn derive_provenance_matches_by_shared_lines_and_merges_ranges() {
    let source = format!(
        "{}\n\n{}",
        wrap_in_observation_group(
            "* 🔴 (14:30) User prefers direct answers\n* 🟡 (14:31) Working on feature X",
            "00000001:00000005",
            "aaaaaaaaaaaaaaaa",
            None
        ),
        wrap_in_observation_group(
            "* 🔴 (09:15) Continued work on feature X",
            "00000006:00000010",
            "bbbbbbbbbbbbbbbb",
            None
        ),
    );
    let reflected = "## Group `aaaaaaaaaaaaaaaa`\n* 🔴 (14:30) User prefers direct answers\n* 🟡 (14:31) Working on feature X";
    let groups = parse_observation_groups(&source);
    let derived = derive_group_provenance(reflected, &groups);
    assert_eq!(derived.len(), 1);
    assert_eq!(derived[0].id, "aaaaaaaaaaaaaaaa");
    assert_eq!(derived[0].range, "00000001:00000005");
    assert_eq!(derived[0].kind.as_deref(), Some("reflection"));
}

#[test]
fn derive_provenance_falls_back_to_index_when_lines_do_not_match() {
    let source = wrap_in_observation_group("original line", "00000001:00000005", "aaaaaaaaaaaaaaaa", None);
    let reflected = "## Group `cccccccccccccccc`\nrewritten line";
    let derived = derive_group_provenance(reflected, &parse_observation_groups(&source));
    assert_eq!(derived.len(), 1);
    assert_eq!(derived[0].id, "cccccccccccccccc");
    assert_eq!(derived[0].range, "00000001:00000005");
}

#[test]
fn derive_provenance_names_an_unlabelled_section_by_position() {
    let source = wrap_in_observation_group("x", "1:2", "aaaaaaaaaaaaaaaa", None);
    let reflected = "## Group without id\n_range: `1:2`_\nbody line\n";
    let derived = derive_group_provenance(reflected, &parse_observation_groups(&source));
    assert_eq!(derived.len(), 1);
    assert_eq!(derived[0].id, "derived-group-1");
    assert_eq!(derived[0].content, "body line");
    assert_eq!(derived[0].range, "1:2");
}

#[test]
fn reconcile_rewraps_reflection_sections_as_groups() {
    let source = format!(
        "{}\n\n{}",
        wrap_in_observation_group("line one", "00000001:00000005", "aaaaaaaaaaaaaaaa", None),
        wrap_in_observation_group("line two", "00000006:00000010", "bbbbbbbbbbbbbbbb", None),
    );
    let reflected = "## Group `aaaaaaaaaaaaaaaa`\nline one\n\n## Group `bbbbbbbbbbbbbbbb`\nline two";
    let reconciled = reconcile_groups_from_reflection(reflected, &source).unwrap();
    let groups = parse_observation_groups(&reconciled);
    assert_eq!(groups.len(), 2);
    assert_eq!(groups[0].id, "aaaaaaaaaaaaaaaa");
    assert_eq!(groups[0].range, "00000001:00000005");
    assert_eq!(groups[0].kind.as_deref(), Some("reflection"));
    assert_eq!(groups[1].id, "bbbbbbbbbbbbbbbb");
    assert_eq!(groups[1].range, "00000006:00000010");
}

#[test]
fn reconcile_wraps_unsectioned_output_as_one_reflection_group() {
    let source = wrap_in_observation_group("line one", "00000001:00000005", "aaaaaaaaaaaaaaaa", None);
    let reconciled = reconcile_groups_from_reflection("plain rewritten log", &source).unwrap();
    let groups = parse_observation_groups(&reconciled);
    assert_eq!(groups.len(), 1);
    assert_eq!(groups[0].range, "00000001:00000005");
    assert_eq!(groups[0].kind.as_deref(), Some("reflection"));
    assert_eq!(groups[0].id, generate_group_id("plain rewritten log"));
    assert_eq!(groups[0].content, "plain rewritten log");
}

#[test]
fn reconcile_without_source_groups_is_a_noop_and_empty_content_stays_empty() {
    assert_eq!(reconcile_groups_from_reflection("text", "plain log"), None);
    let source = wrap_in_observation_group("line one", "00000001:00000005", "aaaaaaaaaaaaaaaa", None);
    assert_eq!(reconcile_groups_from_reflection("", &source), Some(String::new()));
}

#[test]
fn generate_group_id_is_16_hex_and_deterministic() {
    let id = generate_group_id("00000001:00000005|some content");
    assert_eq!(id.len(), 16);
    assert!(id.chars().all(|c| c.is_ascii_hexdigit()));
    assert_eq!(id, generate_group_id("00000001:00000005|some content"));
}

#[test]
fn generate_group_id_is_the_xxh3_hash_in_hex() {
    let text = "some content";
    let expected = format!("{:016x}", xxhash_rust::xxh3::xxh3_64(text.as_bytes()));
    assert_eq!(generate_group_id(text), expected);
    assert_ne!(generate_group_id(text), text);
}

#[test]
fn date_grouped_emoji_log_survives_the_group_round_trip() {
    let log = "Date: Dec 4, 2025\n* 🔴 (14:30) User prefers direct answers\n* 🟡 (14:32) User might prefer dark mode\n\nDate: Dec 5, 2025\n* 🔴 (09:15) Continued work on feature X\n* ✅ (09:40) Feature X shipped — user confirmed";
    let wrapped = wrap_in_observation_group(log, "00000001:00000020", "0123456789abcdef", None);
    assert_eq!(parse_observation_groups(&wrapped)[0].content, log);
    assert_eq!(strip_observation_groups(&wrapped), log);
}

#[test]
fn strip_collapses_blank_runs_and_trims() {
    let log = format!("\n\n{}\n\n\n\ntail  ", wrap_in_observation_group("  body  ", "1:2", "aaaaaaaaaaaaaaaa", None));
    assert_eq!(strip_observation_groups(&log), "body\n\n\ntail");
    assert_eq!(strip_observation_groups("a\n\n\nb"), "a\n\nb");
}

#[test]
fn build_reflector_prompt_strips_groups_and_appends_guidance() {
    let log = wrap_in_observation_group("* line one", "00000001:00000005", "aaaaaaaaaaaaaaaa", None);
    let level0 = build_reflector_prompt(&log, 0);
    assert!(level0.contains("## OBSERVATIONS TO REFLECT ON"));
    assert!(level0.contains("* line one"));
    assert!(!level0.contains("<observation-group"));
    assert!(!level0.contains("COMPRESSION REQUIRED"));
    let level1 = build_reflector_prompt(&log, 1);
    assert!(level1.ends_with(COMPRESSION_GUIDANCE[0]));
    assert_ne!(level0, level1);
}

#[test]
fn the_reflector_prompt_is_the_stripped_log_in_the_fixed_frame() {
    let prompt = build_reflector_prompt("a\n\n\n\nb", 0);
    assert_eq!(
        prompt,
        "## OBSERVATIONS TO REFLECT ON\n\na\n\n\nb\n\n---\n\nPlease analyze these observations and produce a refined, condensed version that will become the assistant's entire memory going forward."
    );
    assert_eq!(build_reflector_prompt("x", 5), build_reflector_prompt("x", 0));
    assert!(build_reflector_prompt("x", 4).ends_with(COMPRESSION_GUIDANCE[3]));
}

#[test]
fn the_frozen_prompt_carries_the_marker_and_the_suffix_only() {
    let prompt = build_reflector_prompt_frozen("FROZEN", "LIVE SUFFIX", 2);
    assert!(prompt.contains("<frozen-prefix>\nFROZEN\n</frozen-prefix>"));
    assert!(prompt.contains("byte-verbatim"));
    assert!(prompt.contains("LIVE SUFFIX"));
    assert!(prompt.contains(COMPRESSION_GUIDANCE[1]));
}

#[test]
fn reflector_list_items_are_bullets_or_numbered_lines() {
    assert!(is_reflector_list_item("- item"));
    assert!(is_reflector_list_item("  * item"));
    assert!(is_reflector_list_item("12. item"));
    assert!(!is_reflector_list_item("-item"));
    assert!(!is_reflector_list_item(". item"));
    assert!(!is_reflector_list_item("1a. item"));
    assert!(!is_reflector_list_item("plain text"));
    assert!(!is_reflector_list_item("1."));
}

#[test]
fn well_formed_logs_close_each_tag_after_its_attributes() {
    assert!(groups_well_formed(""));
    assert!(groups_well_formed("plain text"));
    assert!(groups_well_formed(&wrap_in_observation_group("x", "1:2", "a", None)));
    assert!(groups_well_formed("<observation-group id=\"a\" range=\"1:2\"> no closing tag"));
    assert!(!groups_well_formed("<observation-group id=\"a\" </observation-group> range=\"x\">"));
}

#[test]
fn a_cursor_reads_as_entry_and_time() {
    let c = Cursor { entry_id: "00000005".into(), timestamp: 7 };
    assert_eq!(c.to_text(), "00000005@7");
}

#[test]
fn groups_with_equal_content_keep_their_own_sections() {
    let log = format!(
        "{}\n\n{}",
        wrap_in_observation_group("same", "r1", "a", None),
        wrap_in_observation_group("same", "r2", "b", None)
    );
    let rendered = render_groups_for_reflection(&log).unwrap();
    assert!(rendered.contains("## Group `a`\n_range: `r1`_"));
    assert!(rendered.contains("## Group `b`\n_range: `r2`_"));
}

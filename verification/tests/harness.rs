use tau_core::harness::thinking::{thinking_adjusted_max_output, thinking_budget, ThinkingLevel};
use tau_core::harness::sessions::{
    archive_refusal_for_child, archive_turn_refusal, find_skill, running_turn_refusal, skill_invocation, ParentPlace,
};
use tau_core::harness::commands::{
    archive_children, child_raced_refusal, child_running_refusal, child_still_running_refusal, closed_children, explicit_title, file_page, handle_parent, model_change, raced_refusal,
    restore_refusal, session_listing, session_model, with_catalog, om_status_of, OmStatus, title_refusal, tool_refused, RacedRewrite, FILE_READ_CAP, MAX_TITLE_LEN,
};
use tau_core::harness::pipe::{after_send, after_summary, overflow_summary, PipeCounters};
use tau_core::harness::listing::{dir_listing, FileItem};
use tau_core::harness::sessions_archive::descendants;
use tau_core::harness::workspace::{archived_refusal, set_open_flag, workspace_identity, WorkspaceEntry};
use tau_core::harness::turn::{
    reconcile_turn, send_outcome, turn_start_refusal, SendOutcome, TurnEntry, TurnKind, TurnNotice, TurnUsage,
};
use tau_core::skills::Skill;
use tau_core::harness::snapshot::{
    entry_interrupted, last_model_note, model_note, page_request, preview, snapshot_usage, PageRequest,
};
use tau_core::harness::{stale_dirs, tree_changed_dirs, unique_name};
use tau_core::om_integration::EntryInfo;

#[test]
fn unique_name_returns_a_free_draw() {
    assert_eq!(unique_name(&[], || "Rusty Nail".into()), "Rusty Nail");
}

#[test]
fn unique_name_numbers_past_the_collisions() {
    let titles = vec!["Rusty Nail".into(), "Rusty Nail 2".into(), "Rusty Nail 3".into()];
    assert_eq!(unique_name(&titles, || "Rusty Nail".into()), "Rusty Nail 4");
}

#[test]
fn unique_name_takes_the_first_free_draw() {
    let titles = vec!["a".to_string(), "b".to_string()];
    let draws = std::cell::RefCell::new(vec!["a", "b", "c", "d"].into_iter());
    let name = unique_name(&titles, || draws.borrow_mut().next().unwrap().to_string());
    assert_eq!(name, "c");
}

#[test]
fn tree_changed_dirs_maps_paths_to_stale_dirs() {
    let cwd = "/w";
    let empty: Vec<String> = vec![];
    assert_eq!(tree_changed_dirs(cwd, &empty), vec![".".to_string()]);
    let batch: Vec<String> = vec![
        "/w/src/a.rs".into(),
        "/w/src/core".into(),
        "/w".into(),
        "/w/target/release".into(),
        "/elsewhere/x".into(),
    ];
    assert_eq!(
        tree_changed_dirs(cwd, &batch),
        vec![".".to_string(), "src".to_string(), "src/a.rs".to_string(), "src/core".to_string()]
    );
}

#[test]
fn excluded_subtrees_contribute_nothing() {
    let batch: Vec<String> = vec!["/w/node_modules/x/y".into(), "/w/a/.git/HEAD".into()];
    assert!(tree_changed_dirs("/w", &batch).is_empty());
}

#[test]
fn the_default_budgets_per_level() {
    assert_eq!(thinking_budget(ThinkingLevel::Minimal, &[]), 1024);
    assert_eq!(thinking_budget(ThinkingLevel::Low, &[]), 2048);
    assert_eq!(thinking_budget(ThinkingLevel::Medium, &[]), 8192);
    assert_eq!(thinking_budget(ThinkingLevel::High, &[]), 16384);
    assert_eq!(thinking_budget(ThinkingLevel::XHigh, &[]), 16384);
    assert_eq!(thinking_budget(ThinkingLevel::Max, &[]), 16384);
    assert_eq!(thinking_budget(ThinkingLevel::Off, &[]), 0);
}

#[test]
fn a_user_budget_overrides_the_default() {
    let budgets = vec![("high".to_string(), 2048u32)];
    assert_eq!(thinking_budget(ThinkingLevel::Max, &budgets), 2048);
    assert_eq!(thinking_budget(ThinkingLevel::Low, &budgets), 2048);
    assert_eq!(thinking_adjusted_max_output(Some(4096), None, ThinkingLevel::High, &budgets), Some(6144));
}

#[test]
fn the_cap_rises_by_the_budget_up_to_the_model_maximum() {
    assert_eq!(thinking_adjusted_max_output(Some(4096), None, ThinkingLevel::High, &[]), Some(20480));
    assert_eq!(thinking_adjusted_max_output(Some(4096), Some(8192), ThinkingLevel::High, &[]), Some(8192));
    assert_eq!(thinking_adjusted_max_output(None, Some(8192), ThinkingLevel::Low, &[]), Some(8192));
    assert_eq!(thinking_adjusted_max_output(None, None, ThinkingLevel::Low, &[]), None);
    assert_eq!(thinking_adjusted_max_output(Some(4096), Some(100), ThinkingLevel::Off, &[]), Some(4096));
    assert_eq!(thinking_adjusted_max_output(None, Some(100), ThinkingLevel::Off, &[]), None);
}

fn link(id: &str, parent: Option<&str>) -> (String, Option<String>) {
    (id.to_owned(), parent.map(str::to_owned))
}

#[test]
fn a_delete_takes_the_whole_subtree() {
    let all = vec![
        link("a", None),
        link("b", Some("a")),
        link("c", Some("b")),
        link("d", None),
        link("e", Some("a")),
        link("f", Some("d")),
    ];
    assert_eq!(descendants(&all, "a"), vec!["a".to_owned(), "b".to_owned(), "e".to_owned(), "c".to_owned()]);
    assert_eq!(descendants(&all, "c"), vec!["c".to_owned()]);
    // A root missing from the listing still goes, alone.
    assert_eq!(descendants(&all, "z"), vec!["z".to_owned()]);
    // A cycle in the links ends the walk: nothing is listed twice.
    let cyclic = vec![link("x", Some("y")), link("y", Some("x"))];
    assert_eq!(descendants(&cyclic, "x"), vec!["x".to_owned(), "y".to_owned()]);
}

#[test]
fn the_preview_is_the_first_line_cut_at_80() {
    assert_eq!(preview("hello\nworld"), "hello");
    assert_eq!(preview(""), "");
    let long = "x".repeat(100);
    assert_eq!(preview(&long), format!("{}…", "x".repeat(80)));
    assert_eq!(preview(&"y".repeat(80)), "y".repeat(80));
    // The ellipsis goes by bytes: 50 two-byte characters are over 80 bytes.
    assert_eq!(preview(&"é".repeat(50)), format!("{}…", "é".repeat(50)));
}

#[test]
fn model_notes_name_the_change() {
    assert_eq!(model_note(&None, "gpt"), "model: gpt");
    assert_eq!(model_note(&Some("old".into()), "new"), "model: old → new");
}

fn sys(id: &str, parent: Option<&str>, note: &str) -> EntryInfo {
    EntryInfo {
        id: id.into(),
        parent: parent.map(str::to_owned),
        timestamp: 0,
        kind: "system".into(),
        text: None,
        reasoning: None,
        output: None,
        note: Some(note.into()),
    }
}

#[test]
fn the_current_model_is_the_last_note_on_the_branch() {
    let entries = vec![
        sys("1", None, "model: a"),
        sys("2", Some("1"), "model: a → b"),
        sys("3", Some("2"), "compacted"),
        sys("4", Some("1"), "model: a → c"),
    ];
    assert_eq!(last_model_note(&entries, Some("3")), Some("b".to_owned()));
    assert_eq!(last_model_note(&entries, Some("4")), Some("c".to_owned()));
    assert_eq!(last_model_note(&entries, Some("1")), Some("a".to_owned()));
    assert_eq!(last_model_note(&entries, None), None);
}

#[test]
fn a_skill_invocation_splits_name_and_arguments() {
    assert_eq!(skill_invocation("hello"), None);
    assert_eq!(skill_invocation("/skill:review"), Some(("review".to_owned(), None)));
    assert_eq!(
        skill_invocation("/skill:review  the diff  "),
        Some(("review".to_owned(), Some("the diff".to_owned())))
    );
    assert_eq!(skill_invocation("/skill:review   "), Some(("review".to_owned(), None)));
    assert_eq!(skill_invocation("/skill:a\tb"), Some(("a".to_owned(), Some("b".to_owned()))));
}

fn skill(name: &str) -> Skill {
    Skill {
        name: name.into(),
        description: "d".into(),
        location: format!("/s/{name}/SKILL.md"),
        model_invocation: true,
    }
}

#[test]
fn an_unknown_skill_refuses_the_send() {
    let skills = vec![skill("a"), skill("b"), skill("b")];
    assert_eq!(find_skill(&skills, "b"), Ok(1));
    assert_eq!(find_skill(&skills, "zz"), Err("unknown skill 'zz' — the send was not recorded".to_owned()));
}

#[test]
fn refusals_name_the_route_that_works() {
    assert_eq!(running_turn_refusal("s1"), "session s1 is running — stop it first");
    assert_eq!(archive_turn_refusal("s1"), "session s1 started a turn while archiving — stop it and retry");
    assert_eq!(
        archive_refusal_for_child("c", None, &ParentPlace::Missing),
        "session c is a sub-agent — archive its parent session to archive it"
    );
    assert_eq!(
        archive_refusal_for_child("c", Some("p"), &ParentPlace::Live),
        "session c is a sub-agent — archive its parent session p to archive it"
    );
    assert_eq!(
        archive_refusal_for_child("c", Some("p"), &ParentPlace::OnDisk(Some("Parent".into()))),
        "session c is a sub-agent — the parent session p (Parent) is not open — reopen it and archive it, which archives this sub-agent with it"
    );
    assert_eq!(
        archive_refusal_for_child("c", Some("p"), &ParentPlace::OnDisk(None)),
        "session c is a sub-agent — the parent session p (p) is not open — reopen it and archive it, which archives this sub-agent with it"
    );
    assert_eq!(
        archive_refusal_for_child("c", Some("p"), &ParentPlace::Archived),
        "session c is a sub-agent — its parent session p is archived — restore it, which restores this sub-agent with it"
    );
    assert_eq!(
        archive_refusal_for_child("c", Some("p"), &ParentPlace::Missing),
        "session c is a sub-agent — its parent session p is not open and has no session file"
    );
    assert_eq!(
        archive_refusal_for_child("c", Some("p"), &ParentPlace::WorkspaceClosed),
        "session c is a sub-agent — the parent session p is not open — reopen it and archive it, which archives this sub-agent with it"
    );
}

#[test]
fn a_title_over_the_cap_is_refused_with_its_length() {
    assert_eq!(MAX_TITLE_LEN, 200);
    assert_eq!(title_refusal(&"x".repeat(200)), None);
    assert_eq!(
        title_refusal(&"x".repeat(201)).as_deref(),
        Some("title is 201 characters — the maximum is 200")
    );
    // Characters, not bytes: 150 two-byte characters fit.
    assert_eq!(title_refusal(&"é".repeat(150)), None);
    assert_eq!(
        title_refusal(&"é".repeat(250)).as_deref(),
        Some("title is 250 characters — the maximum is 200")
    );
}

#[test]
fn a_blank_title_leaves_the_session_to_a_fresh_name() {
    assert_eq!(explicit_title(None), None);
    assert_eq!(explicit_title(Some(" \t ")), None);
    assert_eq!(explicit_title(Some("Work")).as_deref(), Some("Work"));
    assert_eq!(explicit_title(Some("  Work ")).as_deref(), Some("  Work "));
}

#[test]
fn a_model_change_is_refused_when_blank_and_skipped_when_current() {
    assert_eq!(model_change(Some("a"), "  "), Err("model is empty".to_string()));
    assert_eq!(model_change(Some("a"), "a"), Ok(false));
    assert_eq!(model_change(Some("a"), "b"), Ok(true));
    assert_eq!(model_change(None, "a"), Ok(true));
}

#[test]
fn refusals_name_the_session_and_the_rewrite() {
    assert_eq!(
        raced_refusal("s1", RacedRewrite::Renaming),
        "session s1 started a turn while renaming — stop it and retry"
    );
    assert_eq!(
        raced_refusal("s1", RacedRewrite::Branching),
        "session s1 started a turn while branching — stop it and retry"
    );
    assert_eq!(
        raced_refusal("s1", RacedRewrite::Deleting),
        "session s1 started a turn while deleting — stop it and retry"
    );
    assert_eq!(child_running_refusal("c1"), "child session c1 is running — stop it first");
    assert_eq!(restore_refusal("s1", false, false).as_deref(), Some("no archive for session s1"));
    assert_eq!(restore_refusal("s1", true, true).as_deref(), Some("session s1 already has a live file"));
    assert_eq!(restore_refusal("s1", true, false), None);
}

#[test]
fn a_handle_belongs_to_the_session_before_its_last_dash() {
    assert_eq!(handle_parent("abc-def-3"), "abc-def");
    assert_eq!(handle_parent("s1-12"), "s1");
    assert_eq!(handle_parent("nodash"), "");
    assert_eq!(handle_parent(""), "");
}

#[test]
fn a_task_tool_refusal_starts_with_its_name() {
    assert!(tool_refused("task_create: a title is required", "task_create"));
    assert!(!tool_refused("created t1", "task_create"));
    assert!(!tool_refused("task_create", "task_create"));
}

fn owned_lines(v: &[&str]) -> Vec<String> {
    v.iter().map(|s| s.to_string()).collect()
}

#[test]
fn a_file_page_takes_the_lines_after_the_offset() {
    let lines = owned_lines(&["l1", "l2", "l3"]);
    let page = file_page(&lines, Some(1), Some(1));
    assert_eq!(page.text, "l2");
    assert!(!page.truncated);
    let all = file_page(&lines, None, None);
    assert_eq!(all.text, "l1\nl2\nl3");
    assert!(!all.truncated);
    let past = file_page(&lines, Some(5), None);
    assert_eq!(past.text, "");
    assert!(!past.truncated);
    let crlf = file_page(&owned_lines(&["a\r", "b"]), None, None);
    assert_eq!(crlf.text, "a\nb");
}

#[test]
fn a_file_page_stops_at_the_byte_cap() {
    assert_eq!(FILE_READ_CAP, 1_000_000);
    let big = "x".repeat(600_000);
    let lines = vec![big.clone(), big.clone(), "tail".to_string()];
    let page = file_page(&lines, None, None);
    assert_eq!(page.text, big);
    assert!(page.truncated);
    // Exactly at the cap still fits: 999_999 bytes and the newline.
    let exact = vec!["y".repeat(999_999)];
    let fits = file_page(&exact, None, None);
    assert!(!fits.truncated);
    let over = vec!["y".repeat(1_000_000)];
    let cut = file_page(&over, None, None);
    assert!(cut.truncated);
    assert_eq!(cut.text, "");
}

#[test]
fn the_listing_merges_live_and_disk_newest_first() {
    let live = vec![("a".to_string(), 5u64)];
    let disk = vec![("b".to_string(), 9u64), ("a".to_string(), 1u64), ("c".to_string(), 5u64), ("b".to_string(), 2u64)];
    assert_eq!(session_listing(&live, &disk), vec!["b", "a", "c"]);
    assert_eq!(session_listing(&[], &[]), Vec::<String>::new());
}

#[test]
fn archive_children_gather_the_supervised_live_and_listed_ones() {
    let supervised = vec![("c2".to_string(), false)];
    let live = vec![
        ("c1".to_string(), Some("p".to_string()), false),
        ("x".to_string(), Some("q".to_string()), true),
        ("p".to_string(), None, false),
    ];
    let listed = vec![
        ("c3".to_string(), Some("p".to_string()), false),
        ("c2".to_string(), Some("p".to_string()), true),
        ("y".to_string(), Some("q".to_string()), false),
    ];
    assert_eq!(archive_children("p", &supervised, &live, &listed), Ok(vec!["c1".to_string(), "c3".to_string()]));
}

#[test]
fn archive_children_refuse_a_running_child() {
    let running = vec![("c2".to_string(), true), ("c0".to_string(), true)];
    assert_eq!(
        archive_children("p", &running, &[], &[]),
        Err("child session c2 is running — stop it first".to_string())
    );
    let live = vec![
        ("c9".to_string(), Some("p".to_string()), true),
        ("c4".to_string(), Some("p".to_string()), true),
    ];
    assert_eq!(
        archive_children("p", &[], &live, &[]),
        Err("child session c4 is running — stop it first".to_string())
    );
}

#[test]
fn a_closed_archive_takes_the_unarchived_children_found_on_disk() {
    let listed = vec![
        ("c1".to_string(), Some("p".to_string()), false),
        ("c2".to_string(), Some("p".to_string()), true),
        ("c3".to_string(), Some("q".to_string()), false),
        ("c0".to_string(), Some("p".to_string()), false),
        ("p".to_string(), None, false),
    ];
    assert_eq!(closed_children("p", &listed), vec!["c1".to_string(), "c0".to_string()]);
    assert_eq!(
        child_still_running_refusal("c1"),
        "child session c1 is still running — stop it and retry"
    );
    assert_eq!(
        child_raced_refusal("c1"),
        "child session c1 started a turn while archiving — stop it and retry"
    );
}

fn turn_entry(id: &str, kind: TurnKind) -> TurnEntry<u32> {
    TurnEntry {
        id: id.to_string(),
        kind,
        text: None,
        interrupted: false,
        usage: None,
        tool_call_id: String::new(),
        name: String::new(),
        output: None,
        first_kept: None,
    }
}

#[test]
fn a_turn_reconciles_its_queue_calls_tools_and_compactions() {
    let u1 = TurnUsage { input_tokens: 10, output_tokens: 5, total_tokens: 15, cached_prompt_tokens: 2 };
    let mut user = turn_entry("e1", TurnKind::User);
    user.text = Some("hi".to_string());
    let mut first = turn_entry("e2", TurnKind::Assistant);
    first.usage = Some(u1);
    let mut tool = turn_entry("e3", TurnKind::Tool);
    tool.tool_call_id = "t1".to_string();
    tool.name = "read".to_string();
    tool.output = Some(42);
    let mut second = turn_entry("e4", TurnKind::Assistant);
    second.interrupted = true;
    second.first_kept = Some("e0".to_string());
    let task = turn_entry("e5", TurnKind::Task);
    let queue = vec!["hi".to_string(), "more".to_string(), "hi".to_string()];
    let calls = vec!["c1".to_string(), "c2".to_string(), "c3".to_string()];
    let r = reconcile_turn(vec![user, first, tool, second, task], &queue, &calls, &[true, false], None);
    assert_eq!(r.kept, vec![1, 2]);
    assert_eq!(r.usage, Some(u1));
    assert!(r.task_touched);
    assert_eq!(r.notices.len(), 5);
    assert!(matches!(&r.notices[0], TurnNotice::ToolStart { call_id, tool_call_id, name }
        if call_id == "c1" && tool_call_id == "t1" && name == "read"));
    assert!(matches!(&r.notices[1], TurnNotice::ToolEnd { call_id, output: Some(42), .. } if call_id == "c1"));
    assert!(matches!(&r.notices[2], TurnNotice::StreamEnd { call_id, interrupted: true, usage: None } if call_id == "c2"));
    assert!(matches!(&r.notices[3], TurnNotice::Compaction { entry, first_kept } if entry == "e4" && first_kept == "e0"));
    assert!(matches!(&r.notices[4], TurnNotice::StreamEnd { call_id, interrupted: true, usage: None } if call_id == "c3"));
}

#[test]
fn a_turn_without_entries_ends_every_call_interrupted() {
    let prior = TurnUsage { input_tokens: 1, output_tokens: 1, total_tokens: 2, cached_prompt_tokens: 0 };
    let calls = vec!["c1".to_string()];
    let r = reconcile_turn::<u32>(Vec::new(), &["q".to_string()], &calls, &[], Some(prior));
    assert_eq!(r.kept, vec![0]);
    assert_eq!(r.usage, Some(prior));
    assert!(!r.task_touched);
    assert_eq!(r.notices.len(), 1);
    assert!(matches!(&r.notices[0], TurnNotice::StreamEnd { call_id, interrupted: true, usage: None } if call_id == "c1"));
}

#[test]
fn a_session_runs_the_first_model_unless_its_file_noted_another() {
    let models = vec!["m1".to_string(), "m2".to_string()];
    assert_eq!(session_model(Some(("p", &models)), None), Ok("m1".to_string()));
    assert_eq!(session_model(Some(("p", &models)), Some("m9".to_string())), Ok("m9".to_string()));
    assert_eq!(session_model(Some(("p", &[])), Some("m9".to_string())), Err("provider p has no models".to_string()));
    assert_eq!(
        session_model(None, None),
        Err("no providers configured; add a [providers.x] section".to_string())
    );
}

#[test]
fn the_catalog_is_the_prompts_last_layer() {
    assert_eq!(with_catalog("base", Some("## Skills")), "base\n\n## Skills");
    assert_eq!(with_catalog("base", None), "base");
}

#[test]
fn a_memory_hook_kind_names_its_status() {
    assert_eq!(om_status_of("observing"), OmStatus::Observing);
    assert_eq!(om_status_of("reflecting"), OmStatus::Reflecting);
    assert_eq!(om_status_of("anything"), OmStatus::Idle);
}

#[test]
fn a_dropped_event_owes_a_summary_until_one_gets_through() {
    let mut c = PipeCounters::new();
    assert_eq!(after_send(&mut c, true), None);
    assert_eq!(after_send(&mut c, false), None);
    assert_eq!(after_send(&mut c, false), None);
    assert_eq!(c, PipeCounters { dropped: 2, overflow_pending: true });
    let owed = "event pipe overflow: 2 event(s) dropped — the view may be missing events; reload".to_string();
    assert_eq!(after_send(&mut c, true), Some(owed.clone()));
    assert!(!c.overflow_pending);
    // The summary missed: it stays owed.
    after_summary(&mut c, false);
    assert!(c.overflow_pending);
    assert_eq!(after_send(&mut c, true), Some(owed));
    after_summary(&mut c, true);
    assert_eq!(c, PipeCounters { dropped: 2, overflow_pending: false });
    assert_eq!(after_send(&mut c, true), None);
    assert_eq!(overflow_summary(0), "event pipe overflow: 0 event(s) dropped — the view may be missing events; reload");
}

#[test]
fn only_an_assistant_entry_ends_interrupted() {
    assert!(entry_interrupted("assistant", true));
    assert!(!entry_interrupted("assistant", false));
    assert!(!entry_interrupted("tool", true));
}

#[test]
fn the_snapshot_usage_is_the_last_assistant_entrys() {
    let entries = vec![
        ("assistant".to_string(), Some(1u32)),
        ("user".to_string(), None),
        ("assistant".to_string(), Some(2u32)),
        ("tool".to_string(), Some(9u32)),
    ];
    assert_eq!(snapshot_usage(&entries), Some(2));
    let last_without = vec![("assistant".to_string(), Some(1u32)), ("assistant".to_string(), None)];
    assert_eq!(snapshot_usage(&last_without), None);
    assert_eq!(snapshot_usage::<u32>(&[]), None);
}

#[test]
fn a_paged_read_names_exactly_one_of_cursor_and_range() {
    assert_eq!(page_request(Some("00000003".to_string()), None), Ok(PageRequest::Since("00000003".to_string())));
    assert_eq!(page_request(None, Some((10, 5))), Ok(PageRequest::Range(10, 15)));
    assert_eq!(page_request(None, None), Err("exactly one of since/range is required".to_string()));
    assert_eq!(
        page_request(Some("c".to_string()), Some((0, 1))),
        Err("exactly one of since/range is required".to_string())
    );
}

#[test]
fn a_workspace_id_is_a_hash_of_its_directory() {
    let a = workspace_identity("/tmp/w");
    let b = workspace_identity("  /tmp/w\n");
    assert_eq!(a, b);
    assert_eq!(a.name, "w");
    assert_eq!(a.cwd, "/tmp/w");
    assert_eq!(a.id, format!("w-{:x}", xxhash_rust::xxh3::xxh3_64(b"/tmp/w")));
    assert!(!a.id.starts_with('/'));
    assert_ne!(workspace_identity("/tmp/v").id, a.id);
    assert_eq!(workspace_identity("/").name, "/");
    assert_eq!(workspace_identity("").name, "");
    assert_eq!(workspace_identity("rel/dir/").name, "dir");
}

fn ws_entry(cwd: &str, open: bool) -> WorkspaceEntry {
    WorkspaceEntry { id: format!("id{cwd}"), name: "n".to_string(), cwd: cwd.to_string(), open }
}

#[test]
fn the_open_flag_is_set_on_the_entry_or_a_new_one() {
    let index = vec![ws_entry("/b", true), ws_entry("/d", true)];
    let w = workspace_identity("/b");
    let closed = set_open_flag(index.clone(), &w, false);
    assert_eq!(closed, vec![ws_entry("/b", false), ws_entry("/d", true)]);
    let reopened = set_open_flag(closed, &w, true);
    assert_eq!(reopened, index);
    // A directory the index lacks is added, and the index sorted by directory.
    let c = workspace_identity("/c");
    let added = set_open_flag(index, &c, false);
    assert_eq!(added.len(), 3);
    assert_eq!(added[0].cwd, "/b");
    assert_eq!(added[1], WorkspaceEntry { id: c.id.clone(), name: "c".to_string(), cwd: "/c".to_string(), open: false });
    assert_eq!(added[2].cwd, "/d");
}

#[test]
fn a_write_to_an_archived_session_names_what_to_restore() {
    assert_eq!(archived_refusal("s1", false), "session s1 is archived — restore it first");
    assert_eq!(
        archived_refusal("s1", true),
        "session s1 is archived with its parent — restore the parent first"
    );
}

fn found(name: &str, path: &str, dir: bool, size: u64) -> (String, String, bool, u64) {
    (name.to_string(), path.to_string(), dir, size)
}

#[test]
fn a_dir_listing_drops_excluded_names_and_lists_dirs_first() {
    let mut entries = vec![found("README.md", "/w/README.md", false, 2), found("src", "/w/src", true, 4096)];
    for ex in [".git", "node_modules", "target", "dist", "build", "out", ".venv", "__pycache__"] {
        entries.push(found(ex, &format!("/w/{ex}"), true, 4096));
    }
    entries.push(found("Cargo.toml", "/w/Cargo.toml", false, 10));
    let files = dir_listing("/w", &entries);
    let names: Vec<&str> = files.iter().map(|f| f.name.as_str()).collect();
    assert_eq!(names, vec!["src", "Cargo.toml", "README.md"]);
    assert_eq!(files[0], FileItem { name: "src".into(), path: "src".into(), dir: true, size: 0 });
    assert_eq!(files[2].path, "README.md");
    assert_eq!(files[2].size, 2);
    let nested = dir_listing("/w", &[found("core", "/w/src/core", true, 4096)]);
    assert_eq!(nested[0].path, "src/core");
    let root = dir_listing("/w", &[found("w", "/w", true, 0)]);
    assert_eq!(root[0].path, ".");
    let outside = dir_listing("/w", &[found("x", "/elsewhere/x", false, 1)]);
    assert_eq!(outside[0].path, "/elsewhere/x");
}

#[test]
fn every_unfinished_call_of_a_turn_ends_once() {
    let calls = vec!["c1".to_string(), "c2".to_string(), "c3".to_string()];
    let entries = vec![turn_entry("e1", TurnKind::Assistant), turn_entry("e2", TurnKind::Assistant)];
    let r = reconcile_turn(entries, &[], &calls, &[false, true], None);
    let ended: Vec<&str> = r
        .notices
        .iter()
        .filter_map(|n| match n {
            TurnNotice::StreamEnd { call_id, .. } => Some(call_id.as_str()),
            _ => None,
        })
        .collect();
    // c1 never completed, c2 did, c3 produced no entry.
    assert_eq!(ended, vec!["c1", "c3"]);
}

#[test]
fn numbering_goes_on_until_the_name_is_free() {
    let mut titles = vec!["x".to_string()];
    for n in 2..=100 {
        titles.push(format!("x {n}"));
    }
    let draws = std::cell::Cell::new(0);
    let r = unique_name(&titles, || {
        draws.set(draws.get() + 1);
        "x".to_string()
    });
    assert_eq!(r, "x 101");
    assert_eq!(draws.get(), 9);
}

#[test]
fn a_send_starts_a_turn_or_waits_for_the_running_one() {
    assert_eq!(send_outcome(false, false), SendOutcome::StartTurn);
    assert_eq!(send_outcome(false, true), SendOutcome::StartTurn);
    assert_eq!(send_outcome(true, false), SendOutcome::Queue);
    assert_eq!(send_outcome(true, true), SendOutcome::Absorb);
}

#[test]
fn a_turn_does_not_run_on_an_unopenable_or_archived_session() {
    assert_eq!(
        turn_start_refusal("s1", Some("io: gone"), true).as_deref(),
        Some("session s1 cannot be opened — the send was not run: io: gone")
    );
    assert_eq!(
        turn_start_refusal("s1", None, true).as_deref(),
        Some("session s1 was archived while this turn was starting — the turn was not run")
    );
    assert_eq!(turn_start_refusal("s1", None, false), None);
}

#[test]
fn stale_dirs_come_from_the_components_below_the_workspace() {
    let comps = |v: &[&str]| Some(v.iter().map(|s| s.to_string()).collect::<Vec<String>>());
    let rels = vec![comps(&["src", "core", "main.rs"]), comps(&["target", "x"]), None, comps(&["README.md"])];
    assert_eq!(stale_dirs(&rels), vec![".", "README.md", "src/core", "src/core/main.rs"]);
    assert_eq!(stale_dirs(&[]), vec!["."]);
}

#[test]
fn descendants_come_breadth_first_in_listing_order() {
    let all = vec![
        ("c1".to_string(), Some("r".to_string())),
        ("g1".to_string(), Some("c1".to_string())),
        ("c2".to_string(), Some("r".to_string())),
        ("x".to_string(), None),
    ];
    assert_eq!(descendants(&all, "r"), vec!["r", "c1", "c2", "g1"]);
}

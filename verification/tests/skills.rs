use tau_core::skills::{
    body, catalog, description_violation_message, discover, expand, name_violation_message, parse,
    skip_message, valid_name, Skill,
};

fn skill(name: &str, description: &str) -> String {
    format!("---\nname: {name}\ndescription: {description}\n---\nDo {name}.\n")
}

fn parsed(raw: &str, location: &str) -> Skill {
    parse(raw, location).0.expect("a skill")
}

#[test]
fn expand_matches_the_template_with_and_without_args() {
    let dir = "/proj/.agents/skills/my-skill";
    let body = "Step one.\nStep two.";
    assert_eq!(
        expand("my-skill", body, dir, None),
        "Skill `my-skill` — follow the instructions below. The skill directory is /proj/.agents/skills/my-skill; resolve relative paths in the instructions against it.\n\nStep one.\nStep two."
    );
    assert_eq!(
        expand("my-skill", body, dir, Some("  do the thing  ")),
        "Skill `my-skill` — follow the instructions below. The skill directory is /proj/.agents/skills/my-skill; resolve relative paths in the instructions against it.\n\nStep one.\nStep two.\n\nUser request: do the thing"
    );
    assert_eq!(expand("s", "b", "/d", Some("   ")), expand("s", "b", "/d", None));
}

#[test]
fn the_catalog_lists_names_descriptions_and_locations() {
    let skills = vec![
        Skill {
            name: "a".into(),
            description: "da".into(),
            location: "/sys/skills/a/SKILL.md".into(),
            model_invocation: true,
        },
        Skill {
            name: "b".into(),
            description: "db".into(),
            location: "/proj/.agents/skills/b/SKILL.md".into(),
            model_invocation: false,
        },
    ];
    let cat = catalog(&skills).unwrap();
    assert!(cat.starts_with("The following skills provide specialized instructions"));
    assert!(cat.contains("<name>a</name>"));
    assert!(cat.contains("<location>/sys/skills/a/SKILL.md</location>"));
    assert!(!cat.contains(">b<"));
    assert!(catalog(&[]).is_none());
    assert!(catalog(&[skills[1].clone()]).is_none());
}

#[test]
fn the_catalog_block_is_exact() {
    let skills = vec![Skill {
        name: "a".into(),
        description: "da".into(),
        location: "/l".into(),
        model_invocation: true,
    }];
    assert_eq!(
        catalog(&skills).unwrap(),
        "The following skills provide specialized instructions for specific tasks.\nWhen a task matches a skill's description, use your file-read tool to load\nthe SKILL.md at the listed location before proceeding.\nWhen a skill references relative paths, resolve them against the skill's\ndirectory (the parent of SKILL.md) and use absolute paths in tool calls.\n\n<available_skills>\n  <skill>\n    <name>a</name>\n    <description>da</description>\n    <location>/l</location>\n  </skill>\n</available_skills>"
    );
}

#[test]
fn body_strips_the_frontmatter() {
    assert_eq!(body("---\nname: s\ndescription: d\n---\n\nBody text.\n"), "Body text.");
}

#[test]
fn body_without_frontmatter_is_the_trimmed_text() {
    assert_eq!(body("  plain\n"), "plain");
    assert_eq!(body("---\r\nname: s\n  never closed  "), "name: s\n  never closed");
}

#[test]
fn diagnostics_carry_the_path_and_the_failed_field() {
    let p = "/proj/.agents/skills/broken/SKILL.md";
    assert_eq!(
        skip_message(p, "missing required field 'description'"),
        "/proj/.agents/skills/broken/SKILL.md: missing required field 'description' — skipped"
    );
    assert_eq!(
        skip_message(p, "unparseable frontmatter"),
        "/proj/.agents/skills/broken/SKILL.md: unparseable frontmatter — skipped"
    );
    assert_eq!(
        name_violation_message(p, "My-Skill"),
        "/proj/.agents/skills/broken/SKILL.md: name 'My-Skill' violates [a-z0-9-] (loaded anyway)"
    );
    assert_eq!(
        description_violation_message(p),
        "/proj/.agents/skills/broken/SKILL.md: description exceeds 1024 chars (loaded anyway)"
    );
}

#[test]
fn missing_description_is_skipped() {
    let (s, notes) = parse("---\nname: s\n---\nBody.\n", "/p/SKILL.md");
    assert!(s.is_none());
    assert_eq!(notes, vec!["/p/SKILL.md: missing required field 'description' — skipped".to_string()]);
}

#[test]
fn unparseable_frontmatter_is_skipped() {
    let (s, notes) = parse("---\nname s\ndescription: d\n---\nBody.\n", "/p/SKILL.md");
    assert!(s.is_none());
    assert_eq!(notes, vec!["/p/SKILL.md: unparseable frontmatter — skipped".to_string()]);
}

#[test]
fn an_unquoted_colon_value_loads_via_the_quoted_retry() {
    let s = parsed(
        "---\nname: s\ndescription: Use this when: the user asks for it\n---\nBody.\n",
        "/p/SKILL.md",
    );
    assert_eq!(s.description, "Use this when: the user asks for it");
}

#[test]
fn a_name_violation_warns_but_loads() {
    let (s, notes) = parse("---\nname: PDF-Processing\ndescription: d\n---\nBody.\n", "/p/SKILL.md");
    assert_eq!(s.unwrap().name, "PDF-Processing");
    assert_eq!(notes, vec![name_violation_message("/p/SKILL.md", "PDF-Processing")]);
}

#[test]
fn disable_model_invocation_is_recorded() {
    let s = parsed(
        "---\nname: s\ndescription: d\ndisable-model-invocation: true\n---\nBody.\n",
        "/p/SKILL.md",
    );
    assert!(!s.model_invocation);
    assert!(catalog(&[s]).is_none());
}

#[test]
fn a_description_over_the_cap_warns_but_loads() {
    let long = "x".repeat(1025);
    let (s, notes) = parse(&skill("s", &long), "/p/SKILL.md");
    assert_eq!(s.unwrap().description.len(), 1025);
    assert_eq!(notes, vec![description_violation_message("/p/SKILL.md")]);
}

#[test]
fn quoted_values_comments_and_indented_lines() {
    let raw = "---\n# a comment\nname: 'q'\n  indented: ignored\ndescription: \"a: b\"\n---\n";
    let s = parsed(raw, "/l");
    assert_eq!(s.name, "q");
    assert_eq!(s.description, "a: b");
    assert!(s.model_invocation);
    assert_eq!(s.location, "/l");
}

#[test]
fn names_follow_the_standard() {
    assert!(valid_name("pdf-processing"));
    assert!(valid_name("a1"));
    assert!(!valid_name("PDF"));
    assert!(!valid_name("-a"));
    assert!(!valid_name("a-"));
    assert!(!valid_name("a--b"));
    assert!(!valid_name(""));
    assert!(!valid_name(&"a".repeat(65)));
    assert!(valid_name(&"a".repeat(64)));
}

fn found(scope: usize, name: &str, description: &str) -> (usize, Skill) {
    (scope, parsed(&skill(name, description), &format!("/{scope}/{description}/SKILL.md")))
}

#[test]
fn discovery_resolves_all_locations_with_project_wins() {
    let list = vec![
        found(0, "shared", "system shared"),
        found(1, "shared", "tau shared"),
        found(1, "tau-skill", "from .tau"),
        found(1, "shared", "agents shared"),
        found(1, "agents-skill", "from .agents"),
    ];
    let (skills, notes) = discover(&list);
    let get = |n: &str| skills.iter().find(|s| s.name == n).unwrap();
    assert_eq!(get("shared").description, "tau shared");
    assert_eq!(get("tau-skill").description, "from .tau");
    assert_eq!(get("agents-skill").description, "from .agents");
    assert_eq!(skills.len(), 3);
    assert_eq!(notes.len(), 2);
    assert!(notes[0].contains("shadows"));
    assert!(notes[1].contains("is shadowed by"));
}

#[test]
fn within_a_scope_the_first_in_the_sorted_scan_wins() {
    let list = vec![found(1, "dup", "first"), found(1, "dup", "second")];
    let (skills, _) = discover(&list);
    assert_eq!(skills.len(), 1);
    assert_eq!(skills[0].description, "first");
}

#[test]
fn a_project_agents_skill_shadows_the_user_level_one() {
    let list = vec![found(0, "user", "from the home"), found(1, "user", "from the project")];
    let (skills, notes) = discover(&list);
    assert_eq!(skills.len(), 1);
    assert_eq!(skills[0].description, "from the project");
    assert_eq!(
        notes,
        vec!["skill user: /1/from the project/SKILL.md shadows /0/from the home/SKILL.md — replaced".to_string()]
    );
}

#[test]
fn the_registry_is_ordered_by_name() {
    let list = vec![found(0, "c", "c"), found(1, "a", "a"), found(0, "b", "b")];
    let (skills, notes) = discover(&list);
    let names: Vec<&str> = skills.iter().map(|s| s.name.as_str()).collect();
    assert_eq!(names, vec!["a", "b", "c"]);
    assert!(notes.is_empty());
}

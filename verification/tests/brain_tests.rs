use hk_core::brain::adapter_named;
use hk_core::mcp::has_native_entry;
use hk_core::digest::{content_hash, PathContent};
use hk_core::openclaw_mcp::{deploy_native, remove_native, set_native_enabled};
use hk_core::brain::{
    adapters_for_home, brain_agent, brain_file, config_summary, display_name, is_sensitive_key,
    memory_file, redacted, safe_model_context, snapshot_skills, text_preview, text_summary,
    BrainFile, BrainSnapshot,
};
use hk_core::digest::{file_digest, skill_digest, tree_digest};
use hk_core::doc::{add_hermes_skill_dir, add_openclaw_skill_dir, json_text, Doc};
use hk_core::error::HkError;
use hk_core::mcp::{
    native_step, registry_server, resolve_secret_ref, runtime_entry, snapshot_mcp,
    toggle_registry, McpServerEntry, McpTransport, NativeStep,
};
use hk_core::openclaw::{memory_file_list, OpenClawAdapter, ProjectMarker};
use hk_core::proposal::Timestamp;
use hk_core::registry::{
    default_mcp_registry_path, validate_server, validate_env_key, validate_secret_ref, AgentMcpConfig, McpRegistry, McpServer,
    McpServerOverride,
};
use hk_core::skills::{
    canonical_skills_root, is_skill_dir, migration_sources, plan_skill_migration, shared_skill_sources, sort_inventory,
    SkillInventoryEntry, SkillPlanDecision, SkillSource,
};
use hk_core::smap::StrMap;

fn brain_doc(v: &serde_json::Value) -> Doc {
    match v {
        serde_json::Value::Null => Doc::Null,
        serde_json::Value::Bool(b) => Doc::Bool(*b),
        serde_json::Value::Number(n) => match n.as_i64() {
            Some(i) => Doc::Int(i),
            None => Doc::Num(n.to_string()),
        },
        serde_json::Value::String(s) => Doc::Str(s.clone()),
        serde_json::Value::Array(a) => Doc::List(a.iter().map(brain_doc).collect()),
        serde_json::Value::Object(o) => Doc::Table(
            o.iter()
                .map(|(k, v)| (Doc::Str(k.clone()), brain_doc(v)))
                .collect(),
        ),
    }
}

fn parse_doc(text: &str) -> Doc {
    brain_doc(&serde_json::from_str::<serde_json::Value>(text).unwrap())
}

fn server(command: Option<&str>, url: Option<&str>, enabled_by_default: bool) -> McpServer {
    McpServer {
        enabled_by_default,
        command: command.map(String::from),
        args: vec![],
        cwd: None,
        url: url.map(String::from),
        transport: None,
        env_keys: vec![],
        env_secret_refs: StrMap::new(),
        header_secret_refs: StrMap::new(),
        tool_allow: vec![],
    }
}

fn no_override() -> McpServerOverride {
    McpServerOverride {
        command: None,
        args: None,
        cwd: None,
        url: None,
        transport: None,
        env_keys: None,
        env_secret_refs: StrMap::new(),
        header_secret_refs: StrMap::new(),
        tool_allow: None,
    }
}

fn empty_registry() -> McpRegistry {
    McpRegistry { version: 1, servers: StrMap::new(), agents: StrMap::new() }
}

fn home_of(temp: &tempfile::TempDir) -> String {
    temp.path().to_str().unwrap().to_string()
}

fn openclaw_entries(home: &str, config: &str) -> Vec<McpServerEntry> {
    OpenClawAdapter::with_home(home.to_string()).read_mcp_servers_from(&Some(parse_doc(config)))
}

fn native(openclaw: Vec<McpServerEntry>) -> Vec<(String, Vec<McpServerEntry>)> {
    vec![
        ("codex".to_string(), vec![]),
        ("hermes".to_string(), vec![]),
        ("openclaw".to_string(), openclaw),
    ]
}

fn inventory(name: &str, root: &str, body: &str) -> SkillInventoryEntry {
    SkillInventoryEntry {
        name: name.into(),
        path: format!("{root}/{name}"),
        sha256: skill_digest(vec![("SKILL.md".to_string(), body.as_bytes().to_vec())]),
    }
}

fn doc_has_text(d: &Doc, needle: &str) -> bool {
    match d {
        Doc::Str(s) | Doc::Num(s) | Doc::Datetime(s) => s.contains(needle),
        Doc::List(items) => items.iter().any(|i| doc_has_text(i, needle)),
        Doc::Table(es) => es.iter().any(|(k, v)| doc_has_text(k, needle) || doc_has_text(v, needle)),
        _ => false,
    }
}

#[test]
fn config_preview_redacts_nested_secrets() {
    let doc = parse_doc(
        r#"{"mcp":{"servers":{"private":{"env":{"API_KEY":"do-not-show"},"headers":{"Authorization":"Bearer do-not-show"}}}}}"#,
    );

    let preview = json_text(&redacted(&doc, false));

    assert!(!preview.contains("do-not-show"));
    assert!(preview.contains("<redacted>"));
}

#[test]
fn redaction_keeps_plain_values_and_hides_lists_under_secrets() {
    let doc = parse_doc(r#"{"model":"gpt","tokens":["a","b"],"nested":{"password":{"x":1}}}"#);
    let r = redacted(&doc, false);
    assert_eq!(
        json_text(&r),
        r#"{"model":"gpt","nested":{"password":{"x":"<redacted>"}},"tokens":"<redacted>"}"#
    );
    assert!(is_sensitive_key("OPENAI_API_KEY"));
    assert!(is_sensitive_key("Environment"));
    assert!(!is_sensitive_key("model"));
}

#[test]
fn native_mcp_status_describes_configuration_not_health() {
    let temp = tempfile::tempdir().unwrap();
    let entries = openclaw_entries(
        &home_of(&temp),
        r#"{"mcp":{"servers":{"docs":{"command":"docs-mcp","enabled":true}}}}"#,
    );

    let rows = snapshot_mcp(&native(entries), &None);

    assert_eq!(rows[0].status, "configured");
}

#[test]
fn shared_registry_merges_with_native_mcp_discovery() {
    let temp = tempfile::tempdir().unwrap();
    let entries = openclaw_entries(
        &home_of(&temp),
        r#"{"mcp":{"servers":{"native-only":{"command":"native-mcp","enabled":true},"shared":{"command":"shared-mcp","enabled":true}}}}"#,
    );
    let mut registry = empty_registry();
    registry
        .servers
        .insert("registry-only".into(), server(Some("registry-mcp"), None, true));
    registry
        .servers
        .insert("shared".into(), server(Some("shared-mcp"), None, false));
    let mut codex = AgentMcpConfig::empty();
    codex.enabled.insert("registry-only".into(), true);
    codex.enabled.insert("shared".into(), false);
    registry.agents.insert("codex".into(), codex);

    let rows = snapshot_mcp(&native(entries), &Some(registry));

    let names = rows.iter().map(|row| row.name.as_str()).collect::<Vec<_>>();
    assert_eq!(names, vec!["native-only", "registry-only", "shared"]);
    let native_row = rows.iter().find(|row| row.name == "native-only").unwrap();
    assert_eq!(native_row.agents.get("openclaw"), Some(&true));
    let registry_row = rows.iter().find(|row| row.name == "registry-only").unwrap();
    assert_eq!(registry_row.agents.get("codex"), Some(&true));
    let shared = rows.iter().find(|row| row.name == "shared").unwrap();
    assert_eq!(shared.agents.get("codex"), Some(&false));
    assert_eq!(shared.agents.get("openclaw"), Some(&true));
}

#[test]
fn snapshot_rows_describe_origin_and_transport() {
    let mut registry = empty_registry();
    registry
        .servers
        .insert("remote".into(), server(None, Some("https://x.test/mcp"), false));
    let rows = snapshot_mcp(&native(vec![]), &Some(registry));
    assert_eq!(rows.len(), 1);
    assert_eq!(rows[0].id, "remote");
    assert_eq!(rows[0].transport, "http");
    assert_eq!(rows[0].status, "disabled");
    assert_eq!(rows[0].description, "Managed by the central secret-free registry");
    assert_eq!(rows[0].agents.len(), 3);

    let home = "/h";
    let entries = openclaw_entries(
        home,
        r#"{"mcp":{"servers":{"events":{"url":"https://e.test","transport":"sse","enabled":false}}}}"#,
    );
    let rows = snapshot_mcp(&native(entries), &None);
    assert_eq!(rows[0].transport, "sse");
    assert_eq!(rows[0].status, "disabled");
    assert_eq!(
        rows[0].description,
        "Discovered in native config; adopt before cross-agent deployment"
    );
}

#[test]
fn memory_snapshot_is_complete_within_edit_limit() {
    let content = "x".repeat(70 * 1024);

    let file = memory_file("/h/.codex/memories/MEMORY.md", content.len() as u64, Some(content.clone()));

    assert_eq!(file.content.as_deref(), Some(content.as_str()));
    assert!(!file.read_only);
    assert_eq!(file.summary, "71680 bytes · private, editable with approval");
}

#[test]
fn oversized_memory_snapshot_is_read_only() {
    let bytes = (hk_core::steward::MAX_MEMORY_EDIT_BYTES + 1) as u64;
    let text = "x".repeat(hk_core::steward::MAX_MEMORY_EDIT_BYTES + 1);

    let file = memory_file("/h/.codex/memories/MEMORY.md", bytes, Some(text));

    assert!(file.read_only);
    assert!(file.summary.contains("over 256 KiB limit"));
    assert_eq!(file.content.map(|c| c.chars().count()), Some(65_536));
}

#[test]
fn non_utf8_memory_snapshot_is_read_only() {
    let file = memory_file("/h/.codex/memories/MEMORY.md", 2, None);

    assert!(file.read_only);
    assert!(file.summary.contains("not valid UTF-8"));
    assert!(file.content.is_none());
}

#[test]
fn brain_files_and_agents_read_as_shown() {
    let f = brain_file("/h/.codex/config.toml", false, "s".into(), None, true);
    assert_eq!(f.label, "config.toml");
    assert_eq!(f.path, "/h/.codex/config.toml");
    let a = brain_agent("openclaw", true, vec![], vec![], vec![]);
    assert_eq!(a.name, "OpenClaw");
    assert_eq!(a.status, "ready");
    let b = brain_agent("other", false, vec![], vec![], vec![]);
    assert_eq!(b.name, "other");
    assert_eq!(b.status, "offline");
    assert_eq!(display_name("hermes"), "Hermes");

    assert_eq!(text_summary(&None), "Not created");
    assert_eq!(
        text_summary(&Some("\n<!-- note -->\n## Title here  \nbody".into())),
        "Title here"
    );
    assert_eq!(text_summary(&Some("  \n".into())), "Empty file");
    assert_eq!(text_preview(&Some("abc".into())).as_deref(), Some("abc"));
}

#[test]
fn config_summaries_show_known_scalars() {
    let codex = parse_doc(r#"{"model":"gpt-5","personality":"calm","token":"x"}"#);
    assert_eq!(config_summary("codex", &Some(codex)), "model=gpt-5 · personality=calm");
    assert_eq!(
        config_summary("codex", &None),
        "Structured config; sensitive fields hidden"
    );
    let claw = parse_doc(r#"{"agents":{"defaults":{"model":{"primary":"x"},"workspace":"/w"}}}"#);
    assert_eq!(config_summary("openclaw", &Some(claw)), "agents/defaults/workspace=/w");
}

#[test]
fn model_context_leaves_memory_out() {
    let memory = vec![BrainFile {
        path: "/h/.hermes/memories/MEMORY.md".into(),
        label: "MEMORY.md".into(),
        summary: "s".into(),
        exists: true,
        content: Some("PRIVATE-MEMORY-MARKER".into()),
        read_only: false,
    }];
    let persona = vec![brain_file("/h/.hermes/SOUL.md", false, "Soul".into(), Some("be kind".into()), true)];
    let agent = brain_agent("hermes", true, vec![], persona, memory);
    let snapshot = BrainSnapshot {
        agents: vec![agent],
        shared_skills: vec![],
        mcp_registry: vec![],
        proposals: vec![],
        captured_at: Timestamp { secs: 1, nanos: 0 },
    };

    let context = safe_model_context(snapshot);

    assert!(context.memory_omitted);
    assert_eq!(context.agents.len(), 1);
    assert_eq!(context.agents[0].id, "hermes");
    assert_eq!(context.agents[0].persona[0].content.as_deref(), Some("be kind"));
    for a in &context.agents {
        for f in a.config.iter().chain(a.persona.iter()) {
            assert!(!f.content.clone().unwrap_or_default().contains("PRIVATE-MEMORY-MARKER"));
        }
    }
}

#[test]
fn brain_manages_three_agents_in_order() {
    let adapters = adapters_for_home("/h");
    let names = adapters.iter().map(|a| a.name()).collect::<Vec<_>>();
    assert_eq!(names, vec!["codex", "hermes", "openclaw"]);
}

#[test]
fn discovers_shared_native_and_workspace_skills_in_order() {
    let temp = tempfile::tempdir().unwrap();
    let home = home_of(&temp);
    let adapter = OpenClawAdapter::with_home(home.clone());
    assert_eq!(
        adapter.skill_dirs(&None),
        vec![
            format!("{home}/.agents/skills"),
            format!("{home}/.openclaw/skills"),
            format!("{home}/.openclaw/workspace/skills"),
        ]
    );
}

#[test]
fn uses_openclaw_soul_file_as_workspace_marker() {
    let temp = tempfile::tempdir().unwrap();
    let adapter = OpenClawAdapter::with_home(home_of(&temp));
    assert_eq!(adapter.project_markers(), vec![ProjectMarker::File("SOUL.md")]);
}

#[test]
fn configured_workspace_drives_brain_file_discovery() {
    let temp = tempfile::tempdir().unwrap();
    let home = home_of(&temp);
    let config = Some(parse_doc(r#"{"agents":{"defaults":{"workspace":"~/custom-brain"}}}"#));

    let adapter = OpenClawAdapter::with_home(home.clone());
    assert_eq!(adapter.global_rules_files(&config)[0], format!("{home}/custom-brain/AGENTS.md"));
    assert_eq!(adapter.skill_dirs(&config)[2], format!("{home}/custom-brain/skills"));
}

#[test]
fn openclaw_paths_and_workspace_fallbacks() {
    let adapter = OpenClawAdapter::with_home("/h".into());
    assert_eq!(adapter.name(), "openclaw");
    assert_eq!(adapter.base_dir(), "/h/.openclaw");
    assert_eq!(adapter.mcp_config_path(), "/h/.openclaw/openclaw.json");
    assert_eq!(adapter.hook_config_path(), "/h/.openclaw/openclaw.json");
    assert!(adapter.supports_native_mcp_toggle());
    assert_eq!(adapter.global_settings_files(), vec!["/h/.openclaw/openclaw.json"]);
    assert_eq!(adapter.plugin_dirs(), vec!["/h/.openclaw/extensions"]);
    let relative = Some(parse_doc(r#"{"agents":{"defaults":{"workspace":"rel/dir"}}}"#));
    assert_eq!(adapter.workspace_dir(&relative), "/h/.openclaw/workspace");
    let absolute = Some(parse_doc(r#"{"agents":{"defaults":{"workspace":"/srv/brain"}}}"#));
    assert_eq!(adapter.workspace_dir(&absolute), "/srv/brain");
    let number = Some(parse_doc(r#"{"agents":{"defaults":{"workspace":7}}}"#));
    assert_eq!(adapter.workspace_dir(&number), "/h/.openclaw/workspace");
    assert_eq!(adapter.global_rules_files(&None).len(), 7);
}

#[test]
fn reads_nested_mcp_servers_and_transports() {
    let temp = tempfile::tempdir().unwrap();
    let servers = openclaw_entries(
        &home_of(&temp),
        r#"{
          "mcp": {"servers": {
            "local": {
              "command": "npx",
              "args": ["-y", "server"],
              "env": {"TOKEN": "secret", "IGNORED_NUMBER": 1},
              "enabled": false
            },
            "http": {
              "url": "https://example.com/mcp",
              "transport": "streamable-http",
              "headers": {"Authorization": "Bearer secret"}
            },
            "events": {
              "url": "https://example.com/events",
              "transport": "sse"
            },
            "invalid": {"transport": "stdio"}
          }}
        }"#,
    );
    assert_eq!(servers.len(), 3, "malformed entries must be skipped");

    let local = servers.iter().find(|s| s.name == "local").unwrap();
    assert_eq!(local.transport, McpTransport::Stdio);
    assert_eq!(local.command, "npx");
    assert_eq!(local.args, vec!["-y", "server"]);
    assert!(!local.enabled);
    assert_eq!(local.env.get("TOKEN").map(String::as_str), Some("secret"));
    assert!(!local.env.contains_key("IGNORED_NUMBER"));

    let http = servers.iter().find(|s| s.name == "http").unwrap();
    assert_eq!(http.transport, McpTransport::Http);
    assert_eq!(http.url.as_deref(), Some("https://example.com/mcp"));
    assert_eq!(http.command, "");

    let events = servers.iter().find(|s| s.name == "events").unwrap();
    assert_eq!(events.transport, McpTransport::Sse);
    assert!(events.enabled, "missing enabled defaults to true");
}

#[test]
fn discovers_main_and_recursive_memory_files() {
    let temp = tempfile::tempdir().unwrap();
    let workspace = format!("{}/.openclaw/workspace", home_of(&temp));
    let found = vec![
        format!("{workspace}/memory/today.md"),
        format!("{workspace}/memory/archive/old.md"),
        format!("{workspace}/memory/ignore.txt"),
    ];

    let files = memory_file_list(&workspace, &found);
    assert_eq!(files.len(), 3);
    assert!(files.contains(&format!("{workspace}/MEMORY.md")));
    assert!(files.contains(&format!("{workspace}/memory/today.md")));
    assert!(files.contains(&format!("{workspace}/memory/archive/old.md")));
}

#[test]
fn memory_files_are_sorted_and_unique() {
    let found = vec![
        "/w/memory/b.md".to_string(),
        "/w/memory/a.md".to_string(),
        "/w/memory//a.md".to_string(),
        "/w/MEMORY.md".to_string(),
    ];
    assert_eq!(
        memory_file_list("/w", &found),
        vec!["/w/MEMORY.md", "/w/memory/a.md", "/w/memory/b.md"]
    );
}

#[test]
fn migration_plan_detects_hash_conflict_and_excludes_system() {
    let canonical_root = "/t/canonical";
    let source_root = "/t/source";
    let canonical = vec![inventory("shared", canonical_root, "canonical")];
    let mut found = vec![];
    for (name, body) in [("shared", "different"), (".system", "ignored")] {
        if is_skill_dir(name, true, true) {
            found.push(inventory(name, source_root, body));
        }
    }

    let plan = plan_skill_migration(
        canonical_root,
        &canonical,
        &vec![(SkillSource { agent: "codex".into(), root: source_root.into() }, found)],
    );

    assert_eq!(plan.items.len(), 1);
    assert_eq!(plan.items[0].name, "shared");
    assert_eq!(plan.items[0].decision, SkillPlanDecision::Conflict);
}

#[test]
fn migration_adds_new_skills_and_reports_conflicts() {
    let canonical_root = "/h/.agents/skills";
    let canonical = vec![inventory("same", canonical_root, "v1")];
    let codex = vec![inventory("new", "/h/.codex/skills", "n"), inventory("same", "/h/.codex/skills", "v1")];
    let hermes = vec![inventory("new", "/h/.hermes/skills/local", "n")];
    let sources = vec![
        (SkillSource { agent: "hermes".into(), root: "/h/.hermes/skills/local".into() }, hermes),
        (SkillSource { agent: "codex".into(), root: "/h/.codex/skills".into() }, codex),
    ];
    let plan = plan_skill_migration(canonical_root, &canonical, &sources);
    assert_eq!(plan.items.len(), 2);
    assert_eq!(plan.items[0].name, "new");
    assert_eq!(plan.items[0].decision, SkillPlanDecision::Add);
    assert_eq!(plan.items[0].destination, "/h/.agents/skills/new");
    assert_eq!(plan.items[0].sources[0].agent, "codex");
    assert_eq!(plan.items[1].decision, SkillPlanDecision::AlreadyCanonical);
    assert_eq!(migration_sources(&plan).unwrap(), vec!["/h/.codex/skills/new"]);

    let conflicted = plan_skill_migration(
        canonical_root,
        &vec![inventory("b", canonical_root, "1"), inventory("a", canonical_root, "1")],
        &vec![(
            SkillSource { agent: "codex".into(), root: "/c".into() },
            vec![inventory("a", "/c", "2"), inventory("b", "/c", "2")],
        )],
    );
    match migration_sources(&conflicted) {
        Err(HkError::Conflict(m)) => assert_eq!(m, "resolve shared Skill conflicts first: a, b"),
        _ => panic!("expected a conflict"),
    }
    assert_eq!(shared_skill_sources("/h")[1].root, "/h/.hermes/skills/local");
    assert!(!is_skill_dir("plain", true, false));
    let sorted = sort_inventory(vec![inventory("b", "/r", "x"), inventory("a", "/r", "y")]);
    assert_eq!(sorted[0].name, "a");
}

#[test]
fn shared_skills_view_lists_canonical_then_candidates() {
    let canonical_root = "/h/.agents/skills";
    let canonical = vec![inventory("ready", canonical_root, "r")];
    let plan = plan_skill_migration(
        canonical_root,
        &canonical,
        &vec![(
            SkillSource { agent: "codex".into(), root: "/h/.codex/skills".into() },
            vec![inventory("alpha", "/h/.codex/skills", "a")],
        )],
    );
    let mut docs = StrMap::new();
    docs.insert("/h/.codex/skills/alpha".to_string(), "# Alpha skill".to_string());
    let views = snapshot_skills(&canonical, &plan, &docs);
    assert_eq!(views.len(), 2);
    assert_eq!(views[0].name, "alpha");
    assert_eq!(views[0].status, "needs_setup");
    assert_eq!(views[0].description, "Alpha skill");
    assert_eq!(views[0].agents, vec!["codex"]);
    assert_eq!(views[1].name, "ready");
    assert_eq!(views[1].status, "ready");
    assert_eq!(views[1].description, "Not created");
    assert_eq!(views[1].agents, vec!["codex", "hermes", "openclaw"]);
}

#[test]
fn registry_rejects_raw_secret_fields_and_values() {
    let mut registry = empty_registry();
    let mut unsafe_server = server(None, Some("https://example.test/mcp"), true);
    unsafe_server
        .header_secret_refs
        .insert("Authorization".into(), "Bearer plaintext".into());
    registry.servers.insert("unsafe".into(), unsafe_server);
    assert!(registry.validate().is_err());
}

#[test]
fn registry_plans_enabled_server_with_safe_override() {
    let mut docs = server(None, Some("https://example.test/mcp"), false);
    docs.header_secret_refs
        .insert("Authorization".into(), "${DOCS_TOKEN}".into());
    let mut registry = empty_registry();
    registry.servers.insert("docs".into(), docs);
    let mut over = no_override();
    over.header_secret_refs
        .insert("X-Api-Key".into(), "${CODEX_DOCS_TOKEN}".into());
    let mut codex = AgentMcpConfig::empty();
    codex.enabled.insert("docs".into(), true);
    codex.overrides.insert("docs".into(), over);
    registry.agents.insert("codex".into(), codex);

    let plan = registry.plan_for_agent("codex").unwrap();
    assert_eq!(plan.servers.len(), 1);
    assert_eq!(plan.servers.get("docs").unwrap().header_secret_refs.len(), 2);
}

#[test]
fn registry_checks_keys_references_and_agents() {
    assert!(validate_env_key("GOOD_KEY1").is_ok());
    assert!(validate_env_key("1BAD").is_err());
    assert!(validate_env_key("").is_err());
    assert!(validate_secret_ref("${TOKEN}").is_ok());
    assert!(validate_secret_ref("${bad-name}").is_err());
    assert!(validate_secret_ref("TOKEN").is_err());

    let mut registry = empty_registry();
    let mut stray = AgentMcpConfig::empty();
    stray.enabled.insert("ghost".into(), true);
    registry.agents.insert("cursor".into(), stray);
    assert_eq!(
        registry.validate(),
        Err("agent cursor references unknown MCP server ghost".to_string())
    );
    let mut wrong = empty_registry();
    wrong.version = 2;
    assert!(wrong.validate().is_err());
    assert!(empty_registry().validate().is_ok());
    let mut off = empty_registry();
    off.servers.insert("docs".into(), server(Some("docs-mcp"), None, false));
    assert_eq!(off.plan_for_agent("codex").unwrap().servers.len(), 0);
    let mut on = empty_registry();
    on.servers.insert("docs".into(), server(Some("docs-mcp"), None, true));
    assert_eq!(on.plan_for_agent("hermes").unwrap().servers.len(), 1);
}

#[test]
fn toggling_adopts_native_servers_and_enables_the_plan() {
    let entries = openclaw_entries(
        "/h",
        r#"{"mcp":{"servers":{"docs":{"command":"docs-mcp","env":{"DOCS_ENV":"v"}}}}}"#,
    );
    let adapters = native(entries);
    let registry = toggle_registry(empty_registry(), "docs", "codex", true, &adapters).unwrap();
    let adopted = registry.servers.get("docs").unwrap();
    assert_eq!(adopted.command.as_deref(), Some("docs-mcp"));
    assert_eq!(adopted.env_keys, vec!["DOCS_ENV"]);
    assert!(!adopted.enabled_by_default);
    assert_eq!(registry.agents.get("codex").unwrap().enabled.get("docs"), Some(&true));
    assert!(registry.plan_for_agent("codex").unwrap().servers.contains_key("docs"));

    let off = toggle_registry(registry, "docs", "codex", false, &adapters).unwrap();
    assert!(!off.plan_for_agent("codex").unwrap().servers.contains_key("docs"));

    match toggle_registry(empty_registry(), "missing", "codex", true, &adapters) {
        Err(HkError::NotFound(m)) => assert_eq!(
            m,
            "MCP server \"missing\" is not in the registry or native configs"
        ),
        _ => panic!("expected NotFound"),
    }
    match toggle_registry(empty_registry(), "docs", "cursor", true, &adapters) {
        Err(HkError::NotFound(m)) => assert_eq!(m, "agent cursor"),
        _ => panic!("expected NotFound"),
    }
}

#[test]
fn native_steps_follow_the_agent_config() {
    assert_eq!(native_step("openclaw", true, true, false).unwrap(), NativeStep::Toggle);
    assert!(matches!(native_step("codex", true, true, true), Err(HkError::Internal(_))));
    assert_eq!(native_step("codex", false, false, true).unwrap(), NativeStep::Deploy);
    assert_eq!(native_step("codex", false, true, false).unwrap(), NativeStep::Remove);
    assert_eq!(native_step("codex", false, true, true).unwrap(), NativeStep::Keep);
}

#[test]
fn runtime_entries_resolve_secrets_from_the_environment() {
    let mut s = server(None, Some("https://x.test"), true);
    s.env_keys = vec!["PLAIN".into(), "ABSENT".into()];
    s.env_secret_refs.insert("TOKEN".into(), "${MY_TOKEN}".into());
    s.header_secret_refs
        .insert("Authorization".into(), "${MY_HEADER}".into());
    let mut env = StrMap::new();
    env.insert("PLAIN".to_string(), "p".to_string());
    env.insert("MY_TOKEN".to_string(), "t".to_string());
    env.insert("MY_HEADER".to_string(), "h".to_string());

    let e = runtime_entry("docs", &s, &env).unwrap();
    assert_eq!(e.transport, McpTransport::Http);
    assert_eq!(e.env.get("PLAIN").map(String::as_str), Some("p"));
    assert!(!e.env.contains_key("ABSENT"));
    assert_eq!(e.env.get("TOKEN").map(String::as_str), Some("t"));
    assert_eq!(e.headers.get("Authorization").map(String::as_str), Some("h"));
    assert!(e.enabled);

    let empty = StrMap::new();
    match runtime_entry("docs", &s, &empty) {
        Err(HkError::Validation(m)) => {
            assert_eq!(m, "required environment variable MY_TOKEN is unset")
        }
        _ => panic!("expected a validation error"),
    }
    match resolve_secret_ref("plain", &env) {
        Err(HkError::Validation(m)) => assert_eq!(m, "invalid secret reference"),
        _ => panic!("expected a validation error"),
    }

    let entry = McpServerEntry {
        name: "x".into(),
        command: "cmd".into(),
        args: vec!["a".into()],
        env: StrMap::new(),
        transport: McpTransport::Stdio,
        url: None,
        headers: StrMap::new(),
        enabled: true,
    };
    let back = registry_server(&entry);
    assert_eq!(back.command.as_deref(), Some("cmd"));
    assert_eq!(back.transport.as_deref(), Some("stdio"));
}

#[test]
fn shared_skill_root_is_added_once() {
    let hermes = parse_doc(r#"{"model":"m"}"#);
    let once = add_hermes_skill_dir(hermes, "/h/.agents/skills").unwrap();
    let twice = add_hermes_skill_dir(once.dup(), "/h/.agents/skills").unwrap();
    assert_eq!(json_text(&once), json_text(&twice));
    assert_eq!(
        json_text(&twice),
        r#"{"model":"m","skills":{"external_dirs":["/h/.agents/skills"]}}"#
    );

    let openclaw = parse_doc(r#"{"skills":{"load":{"extraDirs":["/other"]}}}"#);
    let added = add_openclaw_skill_dir(openclaw, "/h/.agents/skills").unwrap();
    assert_eq!(
        json_text(&added),
        r#"{"skills":{"load":{"extraDirs":["/other","/h/.agents/skills"]}}}"#
    );
    let broken = parse_doc(r#"{"skills":[]}"#);
    match add_hermes_skill_dir(broken, "/x") {
        Err(HkError::ConfigCorrupted(m)) => assert_eq!(m, "Hermes skills is not a mapping"),
        _ => panic!("expected ConfigCorrupted"),
    }
}

#[test]
fn digests_are_sha256() {
    assert_eq!(
        file_digest(&b"abc".to_vec()),
        "ba7816bf8f01cfea414140de5dae2223b00361a396177a9cb410ff61f20015ad"
    );
    let a = tree_digest(vec![("b".into(), b"2".to_vec()), ("a".into(), b"1".to_vec())]);
    let b = tree_digest(vec![("a".into(), b"1".to_vec()), ("b".into(), b"2".to_vec())]);
    assert_eq!(a, b);
    assert_eq!(a, file_digest(&b"a1b2".to_vec()));
    assert_ne!(
        skill_digest(vec![("SKILL.md".into(), b"x".to_vec())]),
        skill_digest(vec![("SKILL.md".into(), b"y".to_vec())])
    );
}

#[test]
fn toggled_flag_shows_in_the_merged_view() {
    let entries = openclaw_entries(
        "/h",
        r#"{"mcp":{"servers":{"docs":{"command":"docs-mcp","enabled":true}}}}"#,
    );
    let adapters = native(entries);
    let registry = toggle_registry(empty_registry(), "docs", "openclaw", false, &adapters).unwrap();
    let rows = snapshot_mcp(&adapters, &Some(registry));
    assert_eq!(rows.len(), 1);
    assert_eq!(rows[0].agents.get("openclaw"), Some(&false));
    assert_eq!(rows[0].agents.get("codex"), Some(&false));
    assert_eq!(rows[0].status, "disabled");
    assert_eq!(rows[0].description, "Managed by the central secret-free registry");
}

#[test]
fn planned_servers_pass_the_server_check() {
    let mut docs = server(None, Some("https://example.test/mcp"), true);
    docs.header_secret_refs
        .insert("Authorization".into(), "${DOCS_TOKEN}".into());
    let mut registry = empty_registry();
    registry.servers.insert("docs".into(), docs);
    registry.servers.insert("local".into(), server(Some("run"), None, true));
    let mut over = no_override();
    over.env_secret_refs.insert("KEY".into(), "${HERMES_KEY}".into());
    let mut hermes = AgentMcpConfig::empty();
    hermes.overrides.insert("local".into(), over);
    registry.agents.insert("hermes".into(), hermes);
    let plan = registry.plan_for_agent("hermes").unwrap();
    assert_eq!(plan.servers.len(), 2);
    for i in 0..plan.servers.len() {
        assert!(validate_server(plan.servers.key_at(i), plan.servers.value_at(i)).is_ok());
    }
    assert_eq!(plan.servers.get("local").unwrap().env_secret_refs.len(), 1);
}

#[test]
fn shared_roots_sit_below_home() {
    match canonical_skills_root() {
        Ok(p) => assert!(p.ends_with("/.agents/skills")),
        Err(m) => assert_eq!(m, "home directory is unavailable"),
    }
    match default_mcp_registry_path() {
        Ok(p) => assert!(p.ends_with("/.harnesskit/shared/mcp-registry.yaml")),
        Err(m) => assert_eq!(m, "home directory is unavailable"),
    }
    assert_eq!(OpenClawAdapter::new().name(), "openclaw");
}

#[test]
fn json_text_is_compact_and_escaped() {
    let d = parse_doc(r#"{"a":[1,-5,true,null],"b":"q\"\n"}"#);
    assert_eq!(json_text(&d), r#"{"a":[1,-5,true,null],"b":"q\"\n"}"#);
}

#[test]
fn migration_plan_ignores_source_order() {
    let canonical_root = "/h/.agents/skills";
    let canonical = vec![inventory("kept", canonical_root, "k")];
    let codex = || {
        (
            SkillSource { agent: "codex".into(), root: "/h/.codex/skills".into() },
            vec![inventory("new", "/h/.codex/skills", "n"), inventory("kept", "/h/.codex/skills", "k")],
        )
    };
    let hermes = || {
        (
            SkillSource { agent: "hermes".into(), root: "/h/.hermes/skills/local".into() },
            vec![inventory("new", "/h/.hermes/skills/local", "other"), inventory("solo", "/h/.hermes/skills/local", "s")],
        )
    };
    let a = plan_skill_migration(canonical_root, &canonical, &vec![codex(), hermes()]);
    let b = plan_skill_migration(canonical_root, &canonical, &vec![hermes(), codex()]);
    assert_eq!(a, b);
    assert_eq!(a.items.len(), 3);
    assert_eq!(a.items[1].name, "new");
    assert_eq!(a.items[1].decision, SkillPlanDecision::Conflict);
    assert_eq!(a.items[1].sources[0].agent, "codex");
    assert_eq!(a.items[1].sources[1].agent, "hermes");
}

#[test]
fn json_text_escapes_control_and_keeps_unicode() {
    let d = Doc::Str("a\u{1}b\u{1f}c\u{7f}é\\".to_string());
    assert_eq!(json_text(&d), "\"a\\u0001b\\u001fc\u{7f}é\\\\\"");
    let t = Doc::Table(vec![(Doc::Str("k\t".to_string()), Doc::Datetime("2024-01-01T00:00:00Z".to_string()))]);
    assert_eq!(json_text(&t), "{\"k\\t\":\"2024-01-01T00:00:00Z\"}");
}

#[test]
fn adapters_know_their_files() {
    let adapters = adapters_for_home("/h");
    assert_eq!(adapters[0].base_dir(), "/h/.codex");
    assert_eq!(adapters[1].base_dir(), "/h/.hermes");
    assert_eq!(adapters[2].base_dir(), "/h/.openclaw");
    assert_eq!(adapters[0].global_settings_files(), vec!["/h/.codex/config.toml"]);
    assert_eq!(adapters[1].global_settings_files(), vec!["/h/.hermes/config.yaml"]);
    assert_eq!(adapters[2].global_settings_files(), vec!["/h/.openclaw/openclaw.json"]);
    assert_eq!(adapters[0].global_rules_files(&None), vec!["/h/.codex/AGENTS.md"]);
    assert_eq!(adapters[1].global_rules_files(&None), vec!["/h/.hermes/SOUL.md"]);
    assert_eq!(adapters[2].global_rules_files(&None).len(), 7);
    assert_eq!(adapters[0].memory_dir(), Some(("/h/.codex/memories".to_string(), true)));
    assert_eq!(adapters[1].memory_dir(), Some(("/h/.hermes/memories".to_string(), false)));
    assert_eq!(adapters[2].memory_dir(), None);
}

#[test]
fn openclaw_adapter_takes_the_looked_up_home() {
    assert_eq!(OpenClawAdapter::from_home(Some("/h".to_string())).base_dir(), "/h/.openclaw");
    assert_eq!(OpenClawAdapter::from_home(None).base_dir(), ".openclaw");
}

#[test]
fn agents_are_found_by_name() {
    let a = adapter_named("/h", "hermes").unwrap();
    assert_eq!(a.name(), "hermes");
    assert_eq!(a.base_dir(), "/h/.hermes");
    assert!(!a.supports_native_mcp_toggle());
    assert!(adapter_named("/h", "openclaw").unwrap().supports_native_mcp_toggle());
    match adapter_named("/h", "cursor") {
        Err(HkError::NotFound(m)) => assert_eq!(m, "agent cursor"),
        _ => panic!("expected not found"),
    }
}

#[test]
fn native_entries_are_found_per_agent() {
    let entry = McpServerEntry {
        name: "docs".into(),
        command: "npx".into(),
        args: vec![],
        env: StrMap::new(),
        transport: McpTransport::Stdio,
        url: None,
        headers: StrMap::new(),
        enabled: true,
    };
    let native = vec![("codex".to_string(), vec![]), ("openclaw".to_string(), vec![entry])];
    assert!(has_native_entry(&native, "openclaw", "docs"));
    assert!(!has_native_entry(&native, "codex", "docs"));
    assert!(!has_native_entry(&native, "openclaw", "web"));
}

#[test]
fn path_hashes_tell_missing_dirs_and_files_apart() {
    assert_eq!(content_hash(PathContent::Missing), "missing");
    assert_eq!(content_hash(PathContent::File(b"abc".to_vec())), file_digest(&b"abc".to_vec()));
    assert_eq!(
        content_hash(PathContent::Dir(vec![("a".to_string(), b"x".to_vec())])),
        tree_digest(vec![("a".to_string(), b"x".to_vec())])
    );
    assert_eq!(
        content_hash(PathContent::File(b"abc".to_vec())),
        "ba7816bf8f01cfea414140de5dae2223b00361a396177a9cb410ff61f20015ad"
    );
}

fn sdoc(t: &str) -> Doc {
    Doc::Str(t.to_string())
}

#[test]
fn openclaw_native_mcp_edits() {
    let root = Doc::Table(vec![(
        sdoc("mcp"),
        Doc::Table(vec![(sdoc("servers"), Doc::Table(vec![(sdoc("docs"), Doc::Table(vec![(sdoc("command"), sdoc("npx"))]))]))]),
    )]);
    let on = set_native_enabled("openclaw", Ok(root.dup()), "docs", false).unwrap();
    assert_eq!(json_text(&on), r#"{"mcp":{"servers":{"docs":{"command":"npx","enabled":false}}}}"#);
    match set_native_enabled("openclaw", Ok(root.dup()), "web", true) {
        Err(HkError::NotFound(m)) => assert_eq!(m, "OpenClaw MCP server web"),
        _ => panic!("expected not found"),
    }
    match set_native_enabled("codex", Ok(root.dup()), "docs", true) {
        Err(HkError::Internal(m)) => assert_eq!(m, "native MCP changes are not available for codex"),
        _ => panic!("expected unavailable"),
    }
    let removed = remove_native("openclaw", Ok(root.dup()), "docs").unwrap();
    assert_eq!(json_text(&removed), r#"{"mcp":{"servers":{}}}"#);
    let mut env = StrMap::new();
    env.insert("TOKEN".to_string(), "x".to_string());
    let entry = McpServerEntry {
        name: "web".into(),
        command: String::new(),
        args: vec!["-v".into()],
        env,
        transport: McpTransport::Sse,
        url: Some("http://localhost:1".into()),
        headers: StrMap::new(),
        enabled: true,
    };
    let deployed = deploy_native("openclaw", Ok(Doc::Table(vec![])), &entry).unwrap();
    assert_eq!(
        json_text(&deployed),
        r#"{"mcp":{"servers":{"web":{"url":"http://localhost:1","transport":"sse","args":["-v"],"env":{"TOKEN":"x"},"enabled":true}}}}"#
    );
    match deploy_native("openclaw", Ok(Doc::Table(vec![(sdoc("mcp"), sdoc("x"))])), &entry) {
        Err(HkError::ConfigCorrupted(m)) => assert_eq!(m, "OpenClaw mcp is not an object"),
        _ => panic!("expected a corrupted config"),
    }
    match remove_native("openclaw", Ok(Doc::Null), "docs") {
        Err(HkError::ConfigCorrupted(m)) => assert_eq!(m, "OpenClaw root is not an object"),
        _ => panic!("expected a corrupted config"),
    }
}

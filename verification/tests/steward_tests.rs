use hk_core::chat::{
    append_chat_notice, build_chat_body, build_free_chat_body, chat_reply, check_backend,
    completion_url, default_api_key_env, parse_chat_content, prepared_reply, reply_content,
    steward_prompt, ProposalOutcome, StewardChatMessage, StewardChatRole, StewardConfig,
};
use hk_core::digest::file_digest;
use hk_core::doc::Doc;
use hk_core::error::HkError;
use hk_core::prompt::{
    deterministic_model_proposal, parse_mcp_toggle, quoted_value, ModelAction, ModelProposal,
};
use hk_core::proposal::{
    action_targets, check_memory_size, create_proposal, failure_report, hashed_paths,
    memory_edit_request, prepare_approval,
    new_proposal, normalize_risk, proposal_path, reject_stored, render_diff, review_gate,
    settle_approval, sort_newest_first, validate_id, validate_model_proposal, verify_hashes, assemble_proposal,
    ChangeAction, StewardProposal, StoredProposal, Timestamp,
};
use hk_core::skills::{SkillMigrationPlan, SkillPlanDecision, SkillPlanItem};
use hk_core::smap::StrMap;
use hk_core::steward::{
    check_config_key, check_discovered, config_path, config_update, judge_probes,
    known_config_keys, memory_target, openclaw_workspace, persona_path, symlink_probes,
    validate_agent, Probe, MAX_MEMORY_EDIT_BYTES,
};

fn steward_doc(v: &serde_json::Value) -> Doc {
    match v {
        serde_json::Value::Null => Doc::Null,
        serde_json::Value::Bool(b) => Doc::Bool(*b),
        serde_json::Value::Number(n) => match n.as_i64() {
            Some(i) => Doc::Int(i),
            None => Doc::Num(n.to_string()),
        },
        serde_json::Value::String(s) => Doc::Str(s.clone()),
        serde_json::Value::Array(a) => Doc::List(a.iter().map(steward_doc).collect()),
        serde_json::Value::Object(o) => Doc::Table(
            o.iter()
                .map(|(k, v)| (Doc::Str(k.clone()), steward_doc(v)))
                .collect(),
        ),
    }
}

fn steward_parse(text: &str) -> Doc {
    steward_doc(&serde_json::from_str::<serde_json::Value>(text).unwrap())
}

fn text_at<'a>(d: &'a Doc, key: &str) -> Option<&'a str> {
    d.get(key).and_then(|v| v.as_str()).map(|s| s.as_str())
}

fn deepseek(effort: &str, thinking: bool) -> StewardConfig {
    StewardConfig {
        base_url: "https://api.deepseek.com/v1".into(),
        model: "deepseek-v4-pro".into(),
        api_key_env: "DEEPSEEK_API_KEY".into(),
        reasoning_effort: Some(effort.into()),
        thinking,
    }
}

fn proposal_at(id: &str, secs: i64, nanos: u32) -> StewardProposal {
    new_proposal(
        id.into(),
        "t".into(),
        "s".into(),
        "low",
        &vec![ChangeAction::SkillsMigrate],
        Timestamp { secs, nanos },
    )
}

fn stored(p: StewardProposal) -> StoredProposal {
    StoredProposal {
        proposal: p,
        actions: vec![ChangeAction::SkillsMigrate],
        source_hashes: StrMap::new(),
    }
}

const ID: &str = "67e55044-10b1-426f-9247-bb680e5fe0c8";

#[test]
fn chat_body_includes_provider_reasoning_controls() {
    let config = deepseek("max", true);

    let body = build_chat_body(&config, "system".into(), "prompt").unwrap();

    assert_eq!(text_at(&body, "model"), Some("deepseek-v4-pro"));
    assert_eq!(text_at(&body, "reasoning_effort"), Some("max"));
    assert_eq!(text_at(body.get("thinking").unwrap(), "type"), Some("enabled"));
}

#[test]
fn free_chat_body_accepts_natural_language_and_includes_history() {
    let config = deepseek("medium", false);
    let history = vec![
        StewardChatMessage {
            role: StewardChatRole::User,
            content: "Which MCPs does Codex use?".into(),
        },
        StewardChatMessage {
            role: StewardChatRole::Steward,
            content: "Codex uses codegraph.".into(),
        },
    ];

    let body = build_free_chat_body(&config, "system".into(), &history, "Why?").unwrap();

    assert!(body.get("response_format").is_none());
    let messages = match body.get("messages") {
        Some(Doc::List(m)) => m,
        _ => panic!("messages must be a list"),
    };
    assert_eq!(text_at(&messages[1], "role"), Some("user"));
    assert_eq!(text_at(&messages[2], "role"), Some("assistant"));
    assert_eq!(text_at(&messages[3], "content"), Some("Why?"));
    assert_eq!(text_at(&body, "reasoning_effort"), Some("medium"));
}

#[test]
fn chat_body_asks_for_json_and_refuses_unknown_effort() {
    let mut config = deepseek("  ", false);
    let body = build_chat_body(&config, "sys".into(), "p").unwrap();
    assert_eq!(text_at(body.get("response_format").unwrap(), "type"), Some("json_object"));
    assert!(body.get("reasoning_effort").is_none());
    assert!(body.get("thinking").is_none());
    assert!(matches!(body.get("temperature"), Some(Doc::Int(0))));

    config.reasoning_effort = Some("extreme".into());
    match build_chat_body(&config, "sys".into(), "p") {
        Err(HkError::Validation(m)) => assert_eq!(
            m,
            "unsupported reasoning_effort \"extreme\"; expected low, medium, high, or max"
        ),
        _ => panic!("expected a validation error"),
    }
}

#[test]
fn free_chat_body_skips_blank_history_and_trims_messages() {
    let config = deepseek("low", false);
    let history = vec![
        StewardChatMessage { role: StewardChatRole::User, content: "   ".into() },
        StewardChatMessage { role: StewardChatRole::Steward, content: "  hi  ".into() },
    ];
    let body = build_free_chat_body(&config, "sys".into(), &history, "next").unwrap();
    let messages = match body.get("messages") {
        Some(Doc::List(m)) => m,
        _ => panic!("messages must be a list"),
    };
    assert_eq!(messages.len(), 3);
    assert_eq!(text_at(&messages[0], "role"), Some("system"));
    assert_eq!(text_at(&messages[1], "content"), Some("hi"));
    assert_eq!(text_at(&messages[2], "content"), Some("next"));
}

#[test]
fn natural_chat_reply_does_not_require_proposal_json() {
    let parsed = parse_chat_content("Codex currently has four enabled MCP servers.");

    assert_eq!(parsed.message, "Codex currently has four enabled MCP servers.");
    assert!(parsed.proposal_text.is_none());
}

#[test]
fn optional_proposal_block_is_extracted_from_natural_reply() {
    let parsed = parse_chat_content(
        "I can make that change after approval.\n<harnesskit-proposal>\n{\"title\":\"Update Codex persona\",\"summary\":\"Make the response style concise\",\"risk\":\"low\",\"actions\":[{\"type\":\"persona_replace\",\"agent\":\"codex\",\"file\":\"AGENTS.md\",\"content\":\"Be concise.\"}]}\n</harnesskit-proposal>",
    );

    assert_eq!(parsed.message, "I can make that change after approval.");
    let text = parsed.proposal_text.expect("a proposal block");
    let value: serde_json::Value = serde_json::from_str(&text).expect("readable JSON");
    assert_eq!(value["title"], "Update Codex persona");
}

#[test]
fn malformed_optional_proposal_does_not_break_chat_reply() {
    let parsed = parse_chat_content(
        "Here is what I found.\n<harnesskit-proposal>{not-json}</harnesskit-proposal>",
    );

    assert_eq!(parsed.message, "Here is what I found.");
    let text = parsed.proposal_text.expect("a proposal block");
    assert!(serde_json::from_str::<serde_json::Value>(&text).is_err());
}

#[test]
fn proposal_block_in_json_fence_joins_both_sides() {
    let parsed = parse_chat_content(
        "before <harnesskit-proposal> ```json\n{\"a\":1}\n``` </harnesskit-proposal> after",
    );
    assert_eq!(parsed.message, "before\nafter");
    assert_eq!(parsed.proposal_text.as_deref(), Some("{\"a\":1}"));

    let open = parse_chat_content("  text <harnesskit-proposal> never closed ");
    assert_eq!(open.message, "text <harnesskit-proposal> never closed");
    assert!(open.proposal_text.is_none());
}

#[test]
fn chat_notices_and_fallback_message() {
    let mut m = String::from("Answer");
    append_chat_notice(&mut m, "note");
    assert_eq!(m, "Answer\n\nnote");
    let mut blank = String::from("  ");
    append_chat_notice(&mut blank, "note");
    assert_eq!(blank, "  note");

    let r = chat_reply("Hello".into(), ProposalOutcome::Unreadable("bad json".into()));
    assert_eq!(
        r.message,
        "Hello\n\nI could not turn the suggested change into a proposal: bad json"
    );
    assert!(r.proposal.is_none());

    let r = chat_reply(
        "".into(),
        ProposalOutcome::Refused(HkError::Validation("invalid MCP server name".into())),
    );
    assert_eq!(r.message, "I could not create that proposal safely: invalid MCP server name");

    let r = chat_reply(" ".into(), ProposalOutcome::NoBlock);
    assert_eq!(
        r.message,
        "I reviewed the agent brains but did not receive a readable answer."
    );

    let p = proposal_at(ID, 1, 0);
    let r = prepared_reply(p);
    assert_eq!(r.message, "I prepared a reviewable proposal: t");
    assert!(r.proposal.is_some());
}

#[test]
fn steward_prompt_is_trimmed_and_required() {
    assert_eq!(steward_prompt("  hi \n").unwrap(), "hi");
    match steward_prompt(" \t ") {
        Err(HkError::Validation(m)) => assert_eq!(m, "Steward prompt cannot be empty"),
        _ => panic!("expected a validation error"),
    }
}

#[test]
fn backend_settings_and_reply_content() {
    let mut config = deepseek("low", false);
    assert!(check_backend(&config).is_ok());
    config.model = " ".into();
    assert!(matches!(check_backend(&config), Err(HkError::Validation(_))));
    assert_eq!(completion_url("https://x.test/v1//"), "https://x.test/v1/chat/completions");
    assert_eq!(default_api_key_env(), "OPENAI_API_KEY");

    let payload = steward_parse(r#"{"choices": [{"message": {"content": "hello"}}]}"#);
    assert_eq!(reply_content(&payload).unwrap(), "hello");
    let empty = steward_parse(r#"{"choices": []}"#);
    match reply_content(&empty) {
        Err(HkError::ConfigCorrupted(m)) => assert_eq!(m, "model response has no message content"),
        _ => panic!("expected ConfigCorrupted"),
    }
}

#[test]
fn brain_questions_do_not_become_deterministic_proposals() {
    assert!(deterministic_model_proposal("How do shared skills work?").is_none());
    assert!(deterministic_model_proposal("Is MCP server data-agent enabled for codex?").is_none());
}

#[test]
fn deterministic_prompts_become_typed_actions() {
    let m = deterministic_model_proposal("Please migrate my Skills").unwrap();
    assert_eq!(m.title, "Migrate personal Skills to the shared root");
    assert_eq!(m.risk, "medium");
    assert!(matches!(m.actions[..], [ModelAction::SkillsMigrate]));

    let m = deterministic_model_proposal("enable MCP server \"docs\" for codex").unwrap();
    assert_eq!(m.title, "Change MCP availability");
    match &m.actions[..] {
        [ModelAction::McpToggle { server, agent, enabled }] => {
            assert_eq!(server, "docs");
            assert_eq!(agent, "codex");
            assert!(*enabled);
        }
        _ => panic!("expected one MCP toggle"),
    }

    match parse_mcp_toggle("disable mcp server (search), for hermes") {
        Some(ModelAction::McpToggle { server, agent, enabled }) => {
            assert_eq!(server, "search");
            assert_eq!(agent, "hermes");
            assert!(!enabled);
        }
        _ => panic!("expected an MCP toggle"),
    }
    assert!(parse_mcp_toggle("enable the mcp for nobody").is_none());
    assert!(quoted_value("say 'hi' now").is_none());
    assert_eq!(quoted_value("a \"b\" 'c'").as_deref(), Some("b"));
    assert!(quoted_value("no quote \"here").is_none());
}

#[test]
fn rejects_memory_and_unknown_config_actions() {
    let model = ModelProposal {
        title: "bad".into(),
        summary: "bad".into(),
        risk: "low".into(),
        actions: vec![ModelAction::ConfigSet {
            agent: "codex".into(),
            key: "auth.token".into(),
            value: Doc::Str("secret".into()),
        }],
    };
    assert!(validate_model_proposal(&model, &None, &None).is_err());
    assert!(persona_path("/tmp", "openclaw", "MEMORY.md", &None).is_err());
}

#[test]
fn model_proposal_checks_each_rule() {
    let base = |actions: Vec<ModelAction>| ModelProposal {
        title: "t".into(),
        summary: "s".into(),
        risk: "low".into(),
        actions,
    };
    let ok = base(vec![ModelAction::ConfigSet {
        agent: "hermes".into(),
        key: "agent.max_turns".into(),
        value: Doc::Int(40),
    }]);
    assert!(validate_model_proposal(&ok, &None, &None).is_ok());

    let none = base(vec![]);
    match validate_model_proposal(&none, &None, &None) {
        Err(HkError::Validation(m)) => {
            assert_eq!(m, "proposal must have title, summary, and at least one action")
        }
        _ => panic!("expected a validation error"),
    }
    let many = base((0..9).map(|_| ModelAction::SkillsMigrate).collect());
    match validate_model_proposal(&many, &None, &None) {
        Err(HkError::Validation(m)) => assert_eq!(m, "proposal has too many actions"),
        _ => panic!("expected a validation error"),
    }
    let bad_server = base(vec![ModelAction::McpToggle {
        server: "a/b".into(),
        agent: "codex".into(),
        enabled: true,
    }]);
    match validate_model_proposal(&bad_server, &None, &None) {
        Err(HkError::Validation(m)) => assert_eq!(m, "invalid MCP server name"),
        _ => panic!("expected a validation error"),
    }
    let bad_agent = base(vec![ModelAction::McpToggle {
        server: "docs".into(),
        agent: "cursor".into(),
        enabled: true,
    }]);
    match validate_model_proposal(&bad_agent, &None, &None) {
        Err(HkError::Validation(m)) => assert_eq!(m, "unknown agent cursor"),
        _ => panic!("expected a validation error"),
    }
    let big = base(vec![ModelAction::PersonaReplace {
        agent: "codex".into(),
        file: "AGENTS.md".into(),
        content: "x".repeat(MAX_MEMORY_EDIT_BYTES + 1),
    }]);
    match validate_model_proposal(&big, &None, &None) {
        Err(HkError::Validation(m)) => assert_eq!(m, "persona content is too large"),
        _ => panic!("expected a validation error"),
    }
}

#[test]
fn skill_migration_is_refused_while_names_conflict() {
    let plan = SkillMigrationPlan {
        canonical_root: "/h/.agents/skills".into(),
        items: vec![SkillPlanItem {
            name: "shared".into(),
            destination: "/h/.agents/skills/shared".into(),
            canonical_sha256: Some("a".into()),
            sources: vec![],
            decision: SkillPlanDecision::Conflict,
        }],
    };
    let model = ModelProposal {
        title: "t".into(),
        summary: "s".into(),
        risk: "low".into(),
        actions: vec![ModelAction::SkillsMigrate],
    };
    match validate_model_proposal(&model, &None, &Some(Ok(plan))) {
        Err(HkError::Conflict(m)) => {
            assert_eq!(m, "shared Skill migration has unresolved name conflicts")
        }
        _ => panic!("expected a conflict"),
    }
}

#[test]
fn memory_edit_rejects_oversized_content() {
    assert!(check_memory_size(&"x".repeat(256 * 1024 + 1)).is_err());
    assert!(check_memory_size(&"x".repeat(256 * 1024)).is_ok());
}

#[test]
fn memory_edit_request_names_the_target() {
    let (title, summary, actions) =
        memory_edit_request("hermes", "/h/.hermes/memories/MEMORY.md", "new memory");
    assert_eq!(title, "Edit private hermes memory");
    assert_eq!(summary, "Replace /h/.hermes/memories/MEMORY.md after explicit approval.");
    match &actions[..] {
        [ChangeAction::MemoryReplace { agent, path, content }] => {
            assert_eq!(agent, "hermes");
            assert_eq!(path, "/h/.hermes/memories/MEMORY.md");
            assert_eq!(content, "new memory");
        }
        _ => panic!("expected one memory replacement"),
    }
    let p = create_proposal(title, summary, "high", &actions).unwrap();
    assert_eq!(p.diff, "~ hermes.memory./h/.hermes/memories/MEMORY.md: replace with 10 bytes");
    assert_eq!(p.risk, "high");
}

#[test]
fn memory_paths_are_scoped_to_each_agent() {
    let temp = tempfile::tempdir().unwrap();
    let home = temp.path().to_str().unwrap().to_string();
    let cases = [
        ("codex", format!("{home}/.codex/memories/codex.md")),
        ("hermes", format!("{home}/.hermes/memories/hermes.md")),
        ("openclaw", format!("{home}/.openclaw/workspace/memory/openclaw.md")),
    ];

    for (agent, path) in &cases {
        assert_eq!(memory_target(&home, agent, path, &None).unwrap().path, *path);
    }

    assert!(memory_target(&home, "codex", &cases[1].1, &None).is_err());
    let traversal = format!("{home}/.codex/memories/../config.toml");
    assert!(memory_target(&home, "codex", &traversal, &None).is_err());
    assert!(memory_target(&home, "unknown", &cases[0].1, &None).is_err());
}

#[test]
fn memory_targets_carry_their_symlink_anchor() {
    let home = "/home/u";
    let main = memory_target(home, "openclaw", "/home/u/.openclaw/workspace/MEMORY.md", &None)
        .unwrap();
    assert_eq!(main.anchor, "/home/u/.openclaw/workspace");
    let deep = memory_target(home, "openclaw", "/home/u/.openclaw/workspace/memory/a/b.md", &None)
        .unwrap();
    assert_eq!(deep.anchor, "/home/u/.openclaw/workspace/memory");
    match memory_target(home, "codex", "/home/u/.codex/memories/notes.txt", &None) {
        Err(HkError::Validation(m)) => assert_eq!(m, "codex memory target must be a Markdown file"),
        _ => panic!("expected a validation error"),
    }
    assert!(memory_target(home, "hermes", "/home/u/.hermes/memories/notes.txt", &None).is_ok());
    match memory_target(home, "hermes", "relative/MEMORY.md", &None) {
        Err(HkError::Validation(m)) => {
            assert_eq!(m, "memory path must be an absolute path without traversal")
        }
        _ => panic!("expected a validation error"),
    }
}

#[test]
fn openclaw_memory_rejects_another_agents_private_directory() {
    let temp = tempfile::tempdir().unwrap();
    let home = temp.path().to_str().unwrap().to_string();
    let workspace = format!("{home}/.hermes/memories");

    assert!(memory_target(
        &home,
        "openclaw",
        &format!("{home}/.hermes/memories/MEMORY.md"),
        &Some(workspace),
    )
    .is_err());
}

#[test]
fn memory_path_rejects_symlink_escape() {
    let temp = tempfile::tempdir().unwrap();
    let home = temp.path().to_str().unwrap().to_string();
    let memory = format!("{home}/.openclaw/workspace/memory");
    let target = format!("{memory}/escape/private.md");

    let found = memory_target(&home, "openclaw", &target, &None).unwrap();
    let probes = symlink_probes(&found.anchor, &found.path).unwrap();
    assert_eq!(probes, vec![memory.clone(), format!("{memory}/escape"), target.clone()]);
    let kinds = vec![Probe::Directory, Probe::Symlink, Probe::Other];
    assert!(judge_probes(&probes, &kinds, &target).is_err());
}

#[test]
fn symlink_checks_name_what_they_found() {
    let probes = vec!["/m".to_string(), "/m/a".to_string(), "/m/a/b.md".to_string()];
    let ok = vec![Probe::Directory, Probe::Missing, Probe::Missing];
    assert!(judge_probes(&probes, &ok, "/m/a/b.md").is_ok());
    let root = vec![Probe::Symlink, Probe::Directory, Probe::Other];
    match judge_probes(&probes, &root, "/m/a/b.md") {
        Err(HkError::Validation(m)) => assert_eq!(m, "memory root is a symlink: /m"),
        _ => panic!("expected a validation error"),
    }
    let file_parent = vec![Probe::Directory, Probe::Other, Probe::Missing];
    match judge_probes(&probes, &file_parent, "/m/a/b.md") {
        Err(HkError::Validation(m)) => assert_eq!(m, "memory path parent is not a directory: /m/a"),
        _ => panic!("expected a validation error"),
    }
    match symlink_probes("/m", "/other/b.md") {
        Err(HkError::Validation(m)) => assert_eq!(m, "memory path is outside its memory root"),
        _ => panic!("expected a validation error"),
    }
    let discovered = vec!["/m/a/b.md".to_string()];
    assert!(check_discovered("openclaw", true, &discovered, "/m/a/b.md").is_ok());
    assert!(check_discovered("openclaw", false, &vec![], "/m/x.md").is_ok());
    match check_discovered("openclaw", true, &discovered, "/m/x.md") {
        Err(HkError::Validation(m)) => assert_eq!(m, "memory path is not discovered for openclaw"),
        _ => panic!("expected a validation error"),
    }
}

#[test]
fn agent_files_and_keys() {
    assert!(validate_agent("codex").is_ok());
    match validate_agent("cursor") {
        Err(HkError::Validation(m)) => assert_eq!(m, "unknown agent cursor"),
        _ => panic!("expected a validation error"),
    }
    assert_eq!(config_path("/h", "hermes").unwrap(), "/h/.hermes/config.yaml");
    assert_eq!(known_config_keys("openclaw").len(), 5);
    assert!(known_config_keys("other").is_empty());
    match check_config_key("codex", "auth.token") {
        Err(HkError::Validation(m)) => assert_eq!(m, "codex config key \"auth.token\" is not editable"),
        _ => panic!("expected a validation error"),
    }
    assert_eq!(persona_path("/h", "codex", "AGENTS.md", &None).unwrap(), "/h/.codex/AGENTS.md");
    match persona_path("/h", "hermes", "AGENTS.md", &None) {
        Err(HkError::Validation(m)) => {
            assert_eq!(m, "\"AGENTS.md\" is not an editable hermes persona file")
        }
        _ => panic!("expected a validation error"),
    }
    assert_eq!(
        persona_path("/h", "openclaw", "SOUL.md", &Some("~/brain".into())).unwrap(),
        "/h/brain/SOUL.md"
    );
    assert_eq!(openclaw_workspace("/h", &None).unwrap(), "/h/.openclaw/workspace");
    assert_eq!(openclaw_workspace("/h", &Some("/srv/ws".into())).unwrap(), "/srv/ws");
    assert_eq!(
        openclaw_workspace("/h", &Some("relative".into())).unwrap(),
        "/h/.openclaw/workspace"
    );
    assert!(openclaw_workspace("/h", &Some("~/.codex/x".into())).is_err());
}

#[test]
fn config_updates_follow_each_format() {
    let doc = steward_parse(r#"{"model": "a"}"#);
    let out = config_update("codex", "features.memories", &Doc::Bool(true), doc).unwrap();
    assert!(matches!(out.get("features").and_then(|f| f.get("memories")), Some(Doc::Bool(true))));
    assert_eq!(text_at(&out, "model"), Some("a"));

    let table = steward_parse("{}");
    match config_update("codex", "model", &Doc::List(vec![]), table) {
        Err(HkError::Validation(m)) => {
            assert_eq!(m, "Codex known config values must be strings, booleans, or integers")
        }
        _ => panic!("expected a validation error"),
    }

    let blocked = steward_parse(r#"{"agent": "flat"}"#);
    match config_update("hermes", "agent.max_turns", &Doc::Int(3), blocked) {
        Err(HkError::ConfigCorrupted(m)) => assert_eq!(m, "max_turns parent is not a mapping"),
        _ => panic!("expected ConfigCorrupted"),
    }

    let json = steward_parse(r#"{"tools": {"profile": "old"}}"#);
    let out = config_update("openclaw", "tools.profile", &Doc::Str("new".into()), json).unwrap();
    assert_eq!(text_at(out.get("tools").unwrap(), "profile"), Some("new"));

    let any = steward_parse("{}");
    match config_update("openclaw", "secret.key", &Doc::Null, any) {
        Err(HkError::Validation(m)) => {
            assert_eq!(m, "openclaw config key \"secret.key\" is not editable")
        }
        _ => panic!("expected a validation error"),
    }
}

#[test]
fn hash_precondition_detects_external_edit() {
    let path = "/tmp/config.toml".to_string();
    let mut hashes = StrMap::new();
    hashes.insert(path.clone(), file_digest(&b"model = \"a\"\n".to_vec()));
    let actual = vec![Ok(file_digest(&b"model = \"b\"\n".to_vec()))];
    assert!(matches!(verify_hashes(&hashes, &actual), Err(HkError::Conflict(_))));
}

#[test]
fn hash_check_reports_path_and_hashing_errors() {
    let mut hashes = StrMap::new();
    hashes.insert("/b".to_string(), "2".to_string());
    hashes.insert("/a".to_string(), "1".to_string());
    let same = vec![Ok("1".to_string()), Ok("2".to_string())];
    assert!(verify_hashes(&hashes, &same).is_ok());
    let changed = vec![Ok("1".to_string()), Ok("3".to_string())];
    match verify_hashes(&hashes, &changed) {
        Err(HkError::Conflict(m)) => assert_eq!(m, "/b changed after proposal creation"),
        _ => panic!("expected a conflict"),
    }
    let failed = vec![Err(HkError::Internal("io".into())), Ok("3".to_string())];
    assert!(matches!(verify_hashes(&hashes, &failed), Err(HkError::Internal(_))));
}

#[test]
fn targets_are_sorted_and_unique() {
    let actions = vec![
        ChangeAction::ConfigSet {
            agent: "openclaw".into(),
            key: "tools.profile".into(),
            value: Doc::Str("x".into()),
        },
        ChangeAction::SkillsMigrate,
        ChangeAction::McpToggle { server: "docs".into(), agent: "hermes".into(), enabled: true },
        ChangeAction::MemoryReplace {
            agent: "hermes".into(),
            path: "/h/.hermes/memories/M.md".into(),
            content: "c".into(),
        },
    ];
    let memory = vec![
        Ok(String::new()),
        Ok(String::new()),
        Ok(String::new()),
        Ok("/h/.hermes/memories/M.md".to_string()),
    ];
    let targets = action_targets("/h", &actions, &None, &memory).unwrap();
    assert_eq!(
        targets,
        vec![
            "/h/.agents/skills",
            "/h/.harnesskit/shared/mcp-registry.yaml",
            "/h/.hermes/config.yaml",
            "/h/.hermes/memories/M.md",
            "/h/.openclaw/openclaw.json",
        ]
    );

    let bad = vec![ChangeAction::ConfigSet {
        agent: "nobody".into(),
        key: "k".into(),
        value: Doc::Null,
    }];
    match action_targets("/h", &bad, &None, &vec![Ok(String::new())]) {
        Err(HkError::Validation(m)) => assert_eq!(m, "unknown agent nobody"),
        _ => panic!("expected a validation error"),
    }
    let refused = vec![Err(HkError::Validation("memory path does not belong to hermes".into()))];
    let mem = vec![ChangeAction::MemoryReplace {
        agent: "hermes".into(),
        path: "/x.md".into(),
        content: String::new(),
    }];
    assert!(action_targets("/h", &mem, &None, &refused).is_err());
}

#[test]
fn hashed_paths_add_skill_dirs_only_for_migrations() {
    let targets = vec!["/h/a".to_string()];
    let skills = vec!["/h/.codex/skills/s".to_string()];
    let config = vec![ChangeAction::ConfigSet {
        agent: "codex".into(),
        key: "model".into(),
        value: Doc::Str("m".into()),
    }];
    assert_eq!(hashed_paths(&targets, &config, &skills), vec!["/h/a"]);
    let migrate = vec![ChangeAction::SkillsMigrate];
    assert_eq!(
        hashed_paths(&targets, &migrate, &skills),
        vec!["/h/a", "/h/.codex/skills/s"]
    );
}

#[test]
fn diff_and_risk_read_as_before() {
    let actions = vec![
        ChangeAction::SkillsMigrate,
        ChangeAction::McpToggle { server: "docs".into(), agent: "codex".into(), enabled: false },
        ChangeAction::ConfigSet {
            agent: "codex".into(),
            key: "model".into(),
            value: Doc::Str("gpt".into()),
        },
        ChangeAction::PersonaReplace {
            agent: "codex".into(),
            file: "AGENTS.md".into(),
            content: "héllo".into(),
        },
    ];
    assert_eq!(
        render_diff(&actions),
        "+ shared Skills: migrate conflict-free personal skills to ~/.agents/skills\n\
         ~ mcp.registry.docs.agents.codex: disabled\n\
         ~ codex.config.model: \"gpt\"\n\
         ~ codex.persona.AGENTS.md: replace with 6 bytes"
    );
    assert_eq!(normalize_risk("LOW"), "low");
    assert_eq!(normalize_risk("High"), "high");
    assert_eq!(normalize_risk("severe"), "medium");
}

#[test]
fn new_proposals_are_pending_with_standard_checks() {
    let actions = vec![ChangeAction::McpToggle {
        server: "docs".into(),
        agent: "codex".into(),
        enabled: true,
    }];
    let p = create_proposal("Change MCP availability".into(), "s".into(), "medium", &actions).unwrap();
    assert_eq!(p.status, "pending");
    assert!(p.diff.contains("docs"));
    assert_eq!(p.validations.len(), 3);
    assert_eq!(p.validations[2].label, "Memory isolation");
    assert!(validate_id(&p.id).is_ok());
    let q = create_proposal("x".into(), "y".into(), "low", &actions).unwrap();
    assert_ne!(p.id, q.id);
    assert!(p.created_at.secs > 1_600_000_000);
}

#[test]
fn proposal_ids_must_be_uuids() {
    assert!(validate_id(ID).is_ok());
    match validate_id("../../etc/passwd") {
        Err(HkError::Validation(m)) => assert_eq!(m, "invalid proposal id"),
        _ => panic!("expected a validation error"),
    }
    assert_eq!(
        proposal_path("/h", ID),
        format!("/h/.harnesskit/steward/proposals/{ID}.json")
    );
}

#[test]
fn rejected_proposal_cannot_be_approved() {
    let s = stored(proposal_at(ID, 10, 0));
    assert!(review_gate(ID, &s.proposal).is_ok());
    let rejected = reject_stored(ID, s).unwrap();
    assert_eq!(rejected.proposal.status, "rejected");
    match review_gate(ID, &rejected.proposal) {
        Err(HkError::Conflict(m)) => assert_eq!(m, format!("proposal {ID} is already rejected")),
        _ => panic!("expected a conflict"),
    }
    assert!(matches!(reject_stored(ID, rejected), Err(HkError::Conflict(_))));
}

#[test]
fn settled_proposals_stay_settled() {
    let approved = settle_approval(stored(proposal_at(ID, 10, 0)), true);
    assert_eq!(approved.proposal.status, "approved");
    assert!(matches!(review_gate(ID, &approved.proposal), Err(HkError::Conflict(_))));
    let failed = settle_approval(stored(proposal_at(ID, 10, 0)), false);
    assert_eq!(failed.proposal.status, "failed");
    match review_gate(ID, &failed.proposal) {
        Err(HkError::Conflict(m)) => assert_eq!(m, format!("proposal {ID} is already failed")),
        _ => panic!("expected a conflict"),
    }
}

#[test]
fn proposals_list_newest_first() {
    let v = vec![
        proposal_at("a", 5, 0),
        proposal_at("b", 9, 1),
        proposal_at("c", 9, 3),
        proposal_at("d", 1, 0),
        proposal_at("e", 9, 1),
    ];
    let ids: Vec<String> = sort_newest_first(v).into_iter().map(|p| p.id).collect();
    assert_eq!(ids, vec!["c", "b", "e", "a", "d"]);
}

#[test]
fn model_actions_never_become_memory_edits() {
    let actions = vec![
        ModelAction::SkillsMigrate,
        ModelAction::McpToggle { server: "s".into(), agent: "codex".into(), enabled: true },
        ModelAction::ConfigSet { agent: "codex".into(), key: "model".into(), value: Doc::Null },
        ModelAction::PersonaReplace {
            agent: "codex".into(),
            file: "AGENTS.md".into(),
            content: "c".into(),
        },
    ];
    for a in actions {
        assert!(!matches!(ChangeAction::from(a), ChangeAction::MemoryReplace { .. }));
    }
}

#[test]
fn approval_checks_run_in_order_before_any_write() {
    let mut s = stored(proposal_at(ID, 10, 0));
    s.actions = vec![ChangeAction::ConfigSet {
        agent: "codex".into(),
        key: "model".into(),
        value: Doc::Str("m".into()),
    }];
    s.source_hashes.insert("/h/.codex/config.toml".to_string(), "abc".to_string());
    let memory = vec![Ok(String::new())];

    let same = vec![Ok("abc".to_string())];
    let targets = prepare_approval(ID, &s, "/h", &None, &same, &memory).unwrap();
    assert_eq!(targets, vec!["/h/.codex/config.toml"]);

    let changed = vec![Ok("xyz".to_string())];
    match prepare_approval(ID, &s, "/h", &None, &changed, &memory) {
        Err(HkError::Conflict(m)) => {
            assert_eq!(m, "/h/.codex/config.toml changed after proposal creation")
        }
        _ => panic!("expected a conflict"),
    }

    let rejected = reject_stored(ID, s).unwrap();
    match prepare_approval(ID, &rejected, "/h", &None, &changed, &memory) {
        Err(HkError::Conflict(m)) => assert_eq!(m, format!("proposal {ID} is already rejected")),
        _ => panic!("expected a conflict"),
    }
}

#[test]
fn failed_apply_reports_rollback_failures_too() {
    let error = HkError::Validation("bad".into());
    match failure_report(&error, &Ok(())) {
        HkError::Validation(m) => assert_eq!(m, "bad"),
        _ => panic!("expected the apply error"),
    }
    match failure_report(&error, &Err(HkError::Internal("disk".into()))) {
        HkError::Internal(m) => assert_eq!(m, "apply failed: bad; rollback failed: disk"),
        _ => panic!("expected an internal error"),
    }
}

#[test]
fn memory_targets_of_different_agents_do_not_overlap() {
    let home = "/home/u";
    let hermes = "/home/u/.hermes/memories/MEMORY.md";
    let claw = "/home/u/.openclaw/workspace/memory/a.md";
    assert!(memory_target(home, "hermes", hermes, &None).is_ok());
    assert!(memory_target(home, "openclaw", hermes, &None).is_err());
    assert!(memory_target(home, "codex", hermes, &None).is_err());
    assert!(memory_target(home, "openclaw", claw, &None).is_ok());
    assert!(memory_target(home, "hermes", claw, &None).is_err());

    // A home inside OpenClaw's memory directory is the one case where a
    // path can belong to two agents.
    let nested = "/m/memory/u";
    let both = "/m/memory/u/.codex/memories/x.md";
    assert!(memory_target(nested, "codex", both, &Some("/m".into())).is_ok());
    assert!(memory_target(nested, "openclaw", both, &Some("/m".into())).is_ok());
}

#[test]
fn proposal_ids_accept_every_uuid_form() {
    assert!(validate_id("67e5504410b1426f9247bb680e5fe0c8").is_ok());
    assert!(validate_id("F9168C5E-CEB2-4faa-B6BF-329BF39FA1E4").is_ok());
    assert!(validate_id("{6d93bade-bd9f-4e13-8914-9474e1e3567b}").is_ok());
    assert!(validate_id("urn:uuid:67e55044-10b1-426f-9247-bb680e5fe0c8").is_ok());
    assert!(validate_id("URN:UUID:67e55044-10b1-426f-9247-bb680e5fe0c8").is_ok());
    assert!(validate_id("67e55044-10b1-426f-9247-bb680e5fe0c").is_err());
    assert!(validate_id("67e55044x10b1-426f-9247-bb680e5fe0c8").is_err());
    assert!(validate_id("g7e5504410b1426f9247bb680e5fe0c8").is_err());
    assert!(validate_id("(6d93bade-bd9f-4e13-8914-9474e1e3567b)").is_err());
    assert!(validate_id("urn:uuix:67e55044-10b1-426f-9247-bb680e5fe0c8").is_err());
    assert!(validate_id("67e55044-10b1-426f-9247-bb680e5fe0cé").is_err());
    assert!(validate_id("").is_err());
}

#[test]
fn proposal_ids_are_version_four() {
    let p = create_proposal("t".into(), "s".into(), "low", &vec![ChangeAction::SkillsMigrate]).unwrap();
    let id: Vec<char> = p.id.chars().collect();
    assert_eq!(id.len(), 36);
    assert_eq!(id[14], '4');
    assert!("89ab".contains(id[19]));
    assert!(p.id.chars().all(|c| c == '-' || c.is_ascii_digit() || ('a'..='f').contains(&c)));
}

#[test]
fn proposals_fail_cleanly_without_randomness_or_clock() {
    let actions = vec![ChangeAction::SkillsMigrate];
    match assemble_proposal(None, Some((1, 0)), "t".into(), "s".into(), "low", &actions) {
        Err(HkError::Internal(m)) => assert_eq!(m, "could not draw random bytes for a proposal id"),
        _ => panic!("expected an internal error"),
    }
    match assemble_proposal(Some(ID.to_string()), None, "t".into(), "s".into(), "low", &actions) {
        Err(HkError::Internal(m)) => assert_eq!(m, "the system clock is out of range"),
        _ => panic!("expected an internal error"),
    }
    match assemble_proposal(Some(ID.to_string()), Some((u64::MAX, 0)), "t".into(), "s".into(), "low", &actions) {
        Err(HkError::Internal(m)) => assert_eq!(m, "the system clock is out of range"),
        _ => panic!("expected an internal error"),
    }
    let p = assemble_proposal(Some(ID.to_string()), Some((1_700_000_000, 5)), "t".into(), "s".into(), "low", &actions)
        .unwrap();
    assert_eq!(p.id, ID);
    assert_eq!(p.created_at.secs, 1_700_000_000);
    assert_eq!(p.created_at.nanos, 5);
    assert_eq!(p.status, "pending");
}

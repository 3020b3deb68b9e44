//! Steward proposals: the typed changes they carry, the checks a model's
//! proposal must pass, how a proposal reads, and its life from pending to
//! approved, rejected or failed.
use vstd::prelude::*;
use crate::doc::{dv, hex_digit, json_text, json_text_s, Doc};
use crate::error::{HkError, HkErrorV};
use crate::mcp::{is_brain_agent};
use crate::paths::{join, join_s};
use crate::prompt::{ModelAction, ModelProposal};
use crate::skills::{has_conflict, SkillMigrationPlan, SkillPlanDecision};
use crate::steward::{
    check_config_key, key_not_editable, known_keys_s, persona_path, persona_result, text_v,
    unknown_agent, validate_agent, otext, MAX_MEMORY_EDIT_BYTES,
};
use crate::text::{
    cat, chars_of, dec, dec_s, is_blank, join as join_text, join_s as join_text_s, lower, lower_s,
    push_str, str_is, strs, trim_s,
};

verus! {

/// The number of UTF-8 bytes of a text, as `str::len` gives it.
pub open spec fn byte_len(s: Seq<char>) -> usize {
    vstd::utf8::encode_utf8(s).len() as usize
}

/// A change a proposal makes once approved.
pub enum ChangeAction {
    SkillsMigrate,
    McpToggle { server: String, agent: String, enabled: bool },
    ConfigSet { agent: String, key: String, value: Doc },
    PersonaReplace { agent: String, file: String, content: String },
    MemoryReplace { agent: String, path: String, content: String },
}

impl vstd::std_specs::convert::FromSpecImpl<ModelAction> for ChangeAction {
    open spec fn obeys_from_spec() -> bool {
        true
    }

    open spec fn from_spec(v: ModelAction) -> ChangeAction {
        match v {
            ModelAction::SkillsMigrate => ChangeAction::SkillsMigrate,
            ModelAction::McpToggle { server, agent, enabled } => ChangeAction::McpToggle {
                server,
                agent,
                enabled,
            },
            ModelAction::ConfigSet { agent, key, value } => ChangeAction::ConfigSet { agent, key, value },
            ModelAction::PersonaReplace { agent, file, content } => ChangeAction::PersonaReplace {
                agent,
                file,
                content,
            },
        }
    }
}

impl From<ModelAction> for ChangeAction {
    fn from(action: ModelAction) -> (r: Self) {
        match action {
            ModelAction::SkillsMigrate => ChangeAction::SkillsMigrate,
            ModelAction::McpToggle { server, agent, enabled } => ChangeAction::McpToggle {
                server,
                agent,
                enabled,
            },
            ModelAction::ConfigSet { agent, key, value } => ChangeAction::ConfigSet { agent, key, value },
            ModelAction::PersonaReplace { agent, file, content } => ChangeAction::PersonaReplace {
                agent,
                file,
                content,
            },
        }
    }
}

/// Whether a server name may stand in a toggle: not empty, no slash or backslash.
pub open spec fn server_name_ok(s: Seq<char>) -> bool {
    s.len() > 0 && !s.contains('/') && !s.contains('\\')
}

/// The check of one model action. `skills` is what computing the Skill
/// migration plan gave (looked at only for a migration); `root_ws` is the
/// OpenClaw workspace setting read with `/` as home.
pub open spec fn check_action_s(
    a: ModelAction,
    root_ws: Option<Seq<char>>,
    skills: Option<Result<bool, HkErrorV>>,
) -> Result<(), HkErrorV> {
    match a {
        ModelAction::SkillsMigrate => match skills {
            Some(Err(e)) => Err(e),
            Some(Ok(true)) => Err(
                HkErrorV::Conflict("shared Skill migration has unresolved name conflicts"@),
            ),
            _ => Ok(()),
        },
        ModelAction::McpToggle { server, agent, .. } => if !is_brain_agent(agent@) {
            Err(unknown_agent(agent@))
        } else if !server_name_ok(server@) {
            Err(HkErrorV::Validation("invalid MCP server name"@))
        } else {
            Ok(())
        },
        ModelAction::ConfigSet { agent, key, .. } => if !is_brain_agent(agent@) {
            Err(unknown_agent(agent@))
        } else if !known_keys_s(agent@).contains(key@) {
            Err(key_not_editable(agent@, key@))
        } else {
            Ok(())
        },
        ModelAction::PersonaReplace { agent, file, content } => if !is_brain_agent(agent@) {
            Err(unknown_agent(agent@))
        } else {
            match persona_result("/"@, agent@, file@, root_ws) {
                Err(e) => Err(e),
                Ok(_) => if byte_len(content@) > MAX_MEMORY_EDIT_BYTES {
                    Err(HkErrorV::Validation("persona content is too large"@))
                } else {
                    Ok(())
                },
            }
        },
    }
}

/// The first failing action, in order.
pub open spec fn check_actions_s(
    actions: Seq<ModelAction>,
    root_ws: Option<Seq<char>>,
    skills: Option<Result<bool, HkErrorV>>,
) -> Result<(), HkErrorV>
    decreases actions.len(),
{
    if actions.len() == 0 {
        Ok(())
    } else {
        match check_actions_s(actions.drop_last(), root_ws, skills) {
            Err(e) => Err(e),
            Ok(()) => check_action_s(actions.last(), root_ws, skills),
        }
    }
}

/// `validate_model_proposal`: a title, a summary and one to eight actions,
/// each of which passes its check.
pub open spec fn validate_s(
    m: ModelProposal,
    root_ws: Option<Seq<char>>,
    skills: Option<Result<bool, HkErrorV>>,
) -> Result<(), HkErrorV> {
    if trim_s(m.title@).len() == 0 || trim_s(m.summary@).len() == 0 || m.actions@.len() == 0 {
        Err(HkErrorV::Validation("proposal must have title, summary, and at least one action"@))
    } else if m.actions@.len() > 8 {
        Err(HkErrorV::Validation("proposal has too many actions"@))
    } else {
        check_actions_s(m.actions@, root_ws, skills)
    }
}

/// Whether some action is a Skill migration.
pub open spec fn migrates(actions: Seq<ModelAction>) -> bool {
    exists|i: int| 0 <= i < actions.len() && #[trigger] actions[i] is SkillsMigrate
}

/// What the migration plan says for the check: its error, or whether it
/// holds a conflict.
pub open spec fn plan_verdict(plan: Option<Result<SkillMigrationPlan, HkError>>) -> Option<Result<bool, HkErrorV>> {
    match plan {
        None => None,
        Some(Err(e)) => Some(Err(e@)),
        Some(Ok(p)) => Some(
            Ok(
                exists|i: int|
                    0 <= i < p.items@.len() && #[trigger] p.items@[i].decision
                        == SkillPlanDecision::Conflict,
            ),
        ),
    }
}

/// Whether a server name may stand in a toggle.
fn server_name_valid(server: &str) -> (b: bool)
    ensures
        b == server_name_ok(server@),
{
    let c = chars_of(server);
    if c.len() == 0 {
        return false;
    }
    let mut i: usize = 0;
    while i < c.len()
        invariant
            i <= c@.len(),
            c@ == server@,
            forall|k: int| 0 <= k < i ==> c@[k] != '/' && c@[k] != '\\',
        decreases c@.len() - i,
    {
        if c[i] == '/' || c[i] == '\\' {
            proof {
                assert(c@.contains(c@[i as int]));
            }
            return false;
        }
        i += 1;
    }
    true
}

/// `validate_model_proposal`. `skill_plan` is the Skill migration plan (or
/// the error computing it gave), needed when an action is a migration;
/// `root_ws` is the OpenClaw workspace setting read with `/` as home.
pub fn validate_model_proposal(
    model: &ModelProposal,
    root_ws: &Option<String>,
    skill_plan: &Option<Result<SkillMigrationPlan, HkError>>,
) -> (r: Result<(), HkError>)
    requires
        migrates(model.actions@) ==> skill_plan is Some,
    ensures
        crate::steward::unit_v(r) == validate_s(*model, otext(*root_ws), plan_verdict(*skill_plan)),
{
    let ghost skills = plan_verdict(*skill_plan);
    let ghost ws = otext(*root_ws);
    if is_blank(model.title.as_str()) || is_blank(model.summary.as_str()) || model.actions.len()
        == 0 {
        return Err(
            HkError::Validation(
                "proposal must have title, summary, and at least one action".to_owned(),
            ),
        );
    }
    if model.actions.len() > 8 {
        return Err(HkError::Validation("proposal has too many actions".to_owned()));
    }
    let mut i: usize = 0;
    proof {
        assert(model.actions@.take(0) =~= Seq::<ModelAction>::empty());
    }
    while i < model.actions.len()
        invariant
            i <= model.actions@.len(),
            migrates(model.actions@) ==> skill_plan is Some,
            skills == plan_verdict(*skill_plan),
            ws == otext(*root_ws),
            trim_s(model.title@).len() > 0,
            trim_s(model.summary@).len() > 0,
            0 < model.actions@.len() <= 8,
            check_actions_s(model.actions@.take(i as int), ws, skills) is Ok,
        decreases model.actions@.len() - i,
    {
        proof {
            assert(model.actions@.take(i + 1).drop_last() =~= model.actions@.take(i as int));
            assert(model.actions@.take(i + 1).last() == model.actions@[i as int]);
        }
        let step = check_action(&model.actions[i], root_ws, skill_plan);
        match step {
            Err(e) => {
                proof {
                    lemma_first_failure(model.actions@, ws, skills, i as int + 1);
                }
                return Err(e);
            },
            Ok(()) => {},
        }
        i += 1;
    }
    proof {
        assert(model.actions@.take(i as int) =~= model.actions@);
    }
    Ok(())
}

/// The check of one action.
fn check_action(
    action: &ModelAction,
    root_ws: &Option<String>,
    skill_plan: &Option<Result<SkillMigrationPlan, HkError>>,
) -> (r: Result<(), HkError>)
    requires
        action is SkillsMigrate ==> skill_plan is Some,
    ensures
        crate::steward::unit_v(r) == check_action_s(*action, otext(*root_ws), plan_verdict(*skill_plan)),
{
    match action {
        ModelAction::SkillsMigrate => match skill_plan {
            Some(Err(e)) => Err(e.dup()),
            Some(Ok(plan)) => if has_conflict(plan) {
                Err(
                    HkError::Conflict(
                        "shared Skill migration has unresolved name conflicts".to_owned(),
                    ),
                )
            } else {
                Ok(())
            },
            None => Ok(()),
        },
        ModelAction::McpToggle { server, agent, .. } => {
            validate_agent(agent.as_str())?;
            if !server_name_valid(server.as_str()) {
                Err(HkError::Validation("invalid MCP server name".to_owned()))
            } else {
                Ok(())
            }
        },
        ModelAction::ConfigSet { agent, key, .. } => {
            validate_agent(agent.as_str())?;
            check_config_key(agent.as_str(), key.as_str())
        },
        ModelAction::PersonaReplace { agent, file, content } => {
            validate_agent(agent.as_str())?;
            let p = persona_path("/", agent.as_str(), file.as_str(), root_ws);
            match p {
                Err(e) => Err(e),
                Ok(_) => if content.as_str().len() > MAX_MEMORY_EDIT_BYTES {
                    Err(HkError::Validation("persona content is too large".to_owned()))
                } else {
                    Ok(())
                },
            }
        },
    }
}

/// A failure among the first `n` actions is the verdict on all of them.
proof fn lemma_first_failure(
    actions: Seq<ModelAction>,
    ws: Option<Seq<char>>,
    skills: Option<Result<bool, HkErrorV>>,
    n: int,
)
    requires
        1 <= n <= actions.len(),
        check_actions_s(actions.take(n), ws, skills) is Err,
    ensures
        check_actions_s(actions, ws, skills) == check_actions_s(actions.take(n), ws, skills),
    decreases actions.len() - n,
{
    if n < actions.len() {
        assert(actions.take(n + 1).drop_last() =~= actions.take(n));
        lemma_first_failure(actions, ws, skills, n + 1);
    } else {
        assert(actions.take(n) =~= actions);
    }
}

/// How one change reads in a proposal's diff.
pub open spec fn diff_line_s(a: ChangeAction) -> Seq<char> {
    match a {
        ChangeAction::SkillsMigrate => "+ shared Skills: migrate conflict-free personal skills to ~/.agents/skills"@,
        ChangeAction::McpToggle { server, agent, enabled } => "~ mcp.registry."@ + server@
            + ".agents."@ + agent@ + ": "@ + if enabled {
            "enabled"@
        } else {
            "disabled"@
        },
        ChangeAction::ConfigSet { agent, key, value } => "~ "@ + agent@ + ".config."@ + key@ + ": "@
            + json_text_s(dv(value)),
        ChangeAction::PersonaReplace { agent, file, content } => "~ "@ + agent@ + ".persona."@
            + file@ + ": replace with "@ + dec_s(byte_len(content@) as nat) + " bytes"@,
        ChangeAction::MemoryReplace { agent, path, content } => "~ "@ + agent@ + ".memory."@ + path@
            + ": replace with "@ + dec_s(byte_len(content@) as nat) + " bytes"@,
    }
}

/// `render_diff`: one line per change.
pub open spec fn render_diff_s(actions: Seq<ChangeAction>) -> Seq<char> {
    join_text_s(actions.map_values(|a: ChangeAction| diff_line_s(a)), "\n"@)
}

/// The diff line of one change.
fn diff_line(a: &ChangeAction) -> (s: String)
    ensures
        s@ == diff_line_s(*a),
{
    let mut s = String::new();
    match a {
        ChangeAction::SkillsMigrate => {
            push_str(&mut s, "+ shared Skills: migrate conflict-free personal skills to ~/.agents/skills");
        },
        ChangeAction::McpToggle { server, agent, enabled } => {
            push_str(&mut s, "~ mcp.registry.");
            push_str(&mut s, server.as_str());
            push_str(&mut s, ".agents.");
            push_str(&mut s, agent.as_str());
            push_str(&mut s, ": ");
            push_str(
                &mut s,
                if *enabled {
                    "enabled"
                } else {
                    "disabled"
                },
            );
        },
        ChangeAction::ConfigSet { agent, key, value } => {
            push_str(&mut s, "~ ");
            push_str(&mut s, agent.as_str());
            push_str(&mut s, ".config.");
            push_str(&mut s, key.as_str());
            push_str(&mut s, ": ");
            let v = json_text(value);
            push_str(&mut s, v.as_str());
        },
        ChangeAction::PersonaReplace { agent, file, content } => {
            push_str(&mut s, "~ ");
            push_str(&mut s, agent.as_str());
            push_str(&mut s, ".persona.");
            push_str(&mut s, file.as_str());
            push_str(&mut s, ": replace with ");
            let n = dec(content.as_str().len() as u64);
            push_str(&mut s, n.as_str());
            push_str(&mut s, " bytes");
        },
        ChangeAction::MemoryReplace { agent, path, content } => {
            push_str(&mut s, "~ ");
            push_str(&mut s, agent.as_str());
            push_str(&mut s, ".memory.");
            push_str(&mut s, path.as_str());
            push_str(&mut s, ": replace with ");
            let n = dec(content.as_str().len() as u64);
            push_str(&mut s, n.as_str());
            push_str(&mut s, " bytes");
        },
    }
    proof {
        assert(s@ =~= diff_line_s(*a));
    }
    s
}

/// `render_diff`.
pub fn render_diff(actions: &Vec<ChangeAction>) -> (s: String)
    ensures
        s@ == render_diff_s(actions@),
{
    let mut lines: Vec<String> = Vec::new();
    let mut i: usize = 0;
    while i < actions.len()
        invariant
            i <= actions@.len(),
            strs(lines@) == actions@.take(i as int).map_values(|a: ChangeAction| diff_line_s(a)),
        decreases actions@.len() - i,
    {
        let l = diff_line(&actions[i]);
        let ghost before = lines@;
        lines.push(l);
        proof {
            assert(strs(lines@) =~= strs(before).push(l@));
            assert(actions@.take(i + 1).map_values(|a: ChangeAction| diff_line_s(a)) =~= actions@.take(
                i as int,
            ).map_values(|a: ChangeAction| diff_line_s(a)).push(diff_line_s(actions@[i as int])));
        }
        i += 1;
    }
    proof {
        assert(actions@.take(i as int) =~= actions@);
    }
    join_text(&lines, "\n")
}

/// `normalize_risk`: `low` and `high` in any ASCII case stay; anything else is `medium`.
pub open spec fn risk_s(risk: Seq<char>) -> Seq<char> {
    if lower_s(risk) == "low"@ {
        "low"@
    } else if lower_s(risk) == "high"@ {
        "high"@
    } else {
        "medium"@
    }
}

/// `normalize_risk`.
pub fn normalize_risk(risk: &str) -> (r: &'static str)
    ensures
        r@ == risk_s(risk@),
{
    let c = chars_of(risk);
    let l = lower(c.as_slice());
    let s = crate::text::string_of(l.as_slice());
    if str_is(s.as_str(), "low") {
        "low"
    } else if str_is(s.as_str(), "high") {
        "high"
    } else {
        "medium"
    }
}

/// One of the checks a proposal records as passed.
pub struct StewardValidation {
    pub label: String,
    pub status: String,
    pub detail: Option<String>,
}

/// An instant in UTC: seconds since the Unix epoch and nanoseconds beyond.
#[derive(Clone, Copy, PartialEq, Eq, Structural, Debug)]
pub struct Timestamp {
    pub secs: i64,
    pub nanos: u32,
}

/// A proposal the Steward shows for review.
pub struct StewardProposal {
    pub id: String,
    pub title: String,
    pub summary: String,
    pub diff: String,
    pub risk: String,
    pub validations: Vec<StewardValidation>,
    pub status: String,
    pub created_at: Timestamp,
}

/// A proposal as it is kept on disk: with its changes and the hash each
/// target had when it was made.
pub struct StoredProposal {
    pub proposal: StewardProposal,
    pub actions: Vec<ChangeAction>,
    pub source_hashes: crate::smap::StrMap<String>,
}

/// The checks every new proposal records.
pub open spec fn standard_checks(v: Seq<StewardValidation>) -> bool {
    &&& v.len() == 3
    &&& v[0].label@ == "Typed action schema"@ && v[0].status@ == "pass"@ && otext(v[0].detail) == Some(
        "Only known config, persona, MCP, and explicit memory actions are accepted"@,
    )
    &&& v[1].label@ == "Optimistic concurrency"@ && v[1].status@ == "pass"@ && otext(v[1].detail)
        == Some("Every target hash is rechecked before apply"@)
    &&& v[2].label@ == "Memory isolation"@ && v[2].status@ == "pass"@ && otext(v[2].detail) == Some(
        "Memory is omitted from model context and edits require explicit approval"@,
    )
}

/// A new proposal: pending, with its diff rendered, its risk normalized and
/// the standard checks recorded.
pub open spec fn fresh_proposal(
    p: StewardProposal,
    title: Seq<char>,
    summary: Seq<char>,
    risk: Seq<char>,
    actions: Seq<ChangeAction>,
) -> bool {
    &&& p.title@ == title
    &&& p.summary@ == summary
    &&& p.diff@ == render_diff_s(actions)
    &&& p.risk@ == risk_s(risk)
    &&& standard_checks(p.validations@)
    &&& p.status@ == "pending"@
}

/// The standard checks.
fn standard_validations() -> (v: Vec<StewardValidation>)
    ensures
        standard_checks(v@),
{
    vec![
        StewardValidation {
            label: "Typed action schema".to_owned(),
            status: "pass".to_owned(),
            detail: Some(
                "Only known config, persona, MCP, and explicit memory actions are accepted".to_owned(),
            ),
        },
        StewardValidation {
            label: "Optimistic concurrency".to_owned(),
            status: "pass".to_owned(),
            detail: Some("Every target hash is rechecked before apply".to_owned()),
        },
        StewardValidation {
            label: "Memory isolation".to_owned(),
            status: "pass".to_owned(),
            detail: Some(
                "Memory is omitted from model context and edits require explicit approval".to_owned(),
            ),
        },
    ]
}

/// The proposal `create_proposal` makes, given its id and creation time.
pub fn new_proposal(
    id: String,
    title: String,
    summary: String,
    risk: &str,
    actions: &Vec<ChangeAction>,
    created_at: Timestamp,
) -> (p: StewardProposal)
    ensures
        fresh_proposal(p, title@, summary@, risk@, actions@),
        p.id == id,
        p.created_at == created_at,
{
    StewardProposal {
        id,
        title,
        summary,
        diff: render_diff(actions),
        risk: normalize_risk(risk).to_owned(),
        validations: standard_validations(),
        status: "pending".to_owned(),
        created_at,
    }
}

/// A hexadecimal digit, in either case.
pub open spec fn hex_char(c: char) -> bool {
    ('0' <= c && c <= '9') || ('a' <= c && c <= 'f') || ('A' <= c && c <= 'F')
}

/// The hyphenated form: 36 characters, hex digits in groups of 8-4-4-4-12
/// with a hyphen between groups.
pub open spec fn hyphenated_s(s: Seq<char>) -> bool {
    &&& s.len() == 36
    &&& forall|i: int|
        0 <= i < 36 ==> if i == 8 || i == 13 || i == 18 || i == 23 {
            #[trigger] s[i] == '-'
        } else {
            hex_char(s[i])
        }
}

/// The prefix `urn:uuid:`, in any ASCII case.
pub open spec fn urn_prefix_s(s: Seq<char>) -> bool {
    &&& s.len() == 9
    &&& forall|i: int|
        0 <= i < 9 ==> #[trigger] s[i] == seq!['u', 'r', 'n', ':', 'u', 'u', 'i', 'd', ':'][i] || s[i] == seq![
            'U',
            'R',
            'N',
            ':',
            'U',
            'U',
            'I',
            'D',
            ':',
        ][i]
}

/// Whether a text is a UUID as `uuid::Uuid::parse_str` reads one: 32 hex
/// digits; the hyphenated form; the hyphenated form in braces; or the
/// hyphenated form after `urn:uuid:` in any ASCII case.
pub open spec fn uuid_ok(s: Seq<char>) -> bool {
    ||| s.len() == 32 && forall|i: int| 0 <= i < 32 ==> hex_char(#[trigger] s[i])
    ||| hyphenated_s(s)
    ||| s.len() == 38 && s[0] == '{' && s[37] == '}' && hyphenated_s(s.subrange(1, 37))
    ||| s.len() == 45 && urn_prefix_s(s.take(9)) && hyphenated_s(s.skip(9))
}

/// `uuid::Uuid::parse_str(id).is_ok()`. The crate reads the text's bytes:
/// by their count (32, 36, 38 or 45) it takes one of the four forms of
/// `uuid_ok`, checks the hyphens, braces or `urn:uuid:` prefix (ignoring
/// ASCII case), and that every other byte is a hex digit. Each of these is
/// one ASCII byte, so an accepted text is ASCII and its bytes are its
/// characters; a text with any other character is refused.
#[verifier::external_body]
fn uuid_parses(id: &str) -> (b: bool)
    ensures
        b == uuid_ok(id@),
{
    uuid::Uuid::parse_str(id).is_ok()
}

/// Byte `i` of the version-4 UUID made from the random bytes `b`: the
/// version (4) in the high half of byte 6, the variant (binary 10) in the
/// top two bits of byte 8, every other byte as drawn.
pub open spec fn v4_byte(b: Seq<u8>, i: int) -> u8 {
    if i == 6 {
        (b[6] & 0x0fu8) | 0x40u8
    } else if i == 8 {
        (b[8] & 0x3fu8) | 0x80u8
    } else {
        b[i]
    }
}

/// Which of the 32 hex digits stands at place `k` of the hyphenated text.
pub open spec fn digit_at(k: int) -> int {
    k - (if k > 8 { 1int } else { 0int }) - (if k > 13 { 1int } else { 0int }) - (if k > 18 { 1int } else { 0int })
        - (if k > 23 { 1int } else { 0int })
}

/// Hex digit `d` of the UUID made from `b`: the high half of each byte first.
pub open spec fn v4_nibble(b: Seq<u8>, d: int) -> u8 {
    if d % 2 == 0 {
        v4_byte(b, d / 2) >> 4u8
    } else {
        v4_byte(b, d / 2) & 0x0fu8
    }
}

/// The hyphenated lower-case text of the version-4 UUID made from the
/// random bytes `b`.
pub open spec fn v4_text_s(b: Seq<u8>) -> Seq<char> {
    Seq::new(
        36,
        |k: int|
            if k == 8 || k == 13 || k == 18 || k == 23 {
                '-'
            } else {
                hex_digit(v4_nibble(b, digit_at(k)) as nat)
            },
    )
}

/// A lower-case hex digit is a hex digit.
proof fn lemma_hex_digit(d: nat)
    requires
        d < 16,
    ensures
        hex_char(hex_digit(d)),
{
}

/// The text of a version-4 UUID is in the hyphenated form.
proof fn lemma_v4_hyphenated(b: Seq<u8>)
    requires
        b.len() == 16,
    ensures
        hyphenated_s(v4_text_s(b)),
{
    let s = v4_text_s(b);
    assert forall|i: int|
        0 <= i < 36 implies if i == 8 || i == 13 || i == 18 || i == 23 {
        #[trigger] s[i] == '-'
    } else {
        hex_char(s[i])
    } by {
        if !(i == 8 || i == 13 || i == 18 || i == 23) {
            let x: u8 = v4_byte(b, digit_at(i) / 2);
            assert(x >> 4u8 < 16u8) by (bit_vector);
            assert(x & 0x0fu8 < 16u8) by (bit_vector);
            lemma_hex_digit(v4_nibble(b, digit_at(i)) as nat);
        }
    }
}

/// `getrandom::fill` on 16 bytes: `Some` of the bytes drawn from the
/// system's random source, `None` where that source reports a failure.
/// Nothing is said of the bytes but their number.
#[verifier::external_body]
fn random_bytes() -> (r: Option<Vec<u8>>)
    ensures
        r matches Some(b) ==> b@.len() == 16,
{
    let mut b = [0u8; 16];
    match getrandom::fill(&mut b) {
        Ok(()) => Some(b.to_vec()),
        Err(_) => None,
    }
}

/// `uuid::Builder::from_random_bytes(b).into_uuid().to_string()`: the
/// version and variant bits set as `v4_byte` says, written by `Display` as
/// lower-case hex digits, two per byte and high half first, with hyphens
/// after the 4th, 6th, 8th and 10th byte.
#[verifier::external_body]
fn v4_text(b: &Vec<u8>) -> (s: String)
    requires
        b@.len() == 16,
    ensures
        s@ == v4_text_s(b@),
{
    match <[u8; 16]>::try_from(b.as_slice()) {
        Ok(a) => uuid::Builder::from_random_bytes(a).into_uuid().to_string(),
        Err(_) => String::new(),
    }
}

/// `SystemTime::now().duration_since(UNIX_EPOCH)` as whole seconds and the
/// nanoseconds past them, which `Duration::subsec_nanos` keeps below one
/// billion; `None` where the clock reads before 1970. Nothing else is said
/// of the time.
#[verifier::external_body]
fn unix_time() -> (r: Option<(u64, u32)>)
    ensures
        r matches Some((_, n)) ==> n < 1000000000u32,
{
    match std::time::SystemTime::now().duration_since(std::time::UNIX_EPOCH) {
        Ok(d) => Some((d.as_secs(), d.subsec_nanos())),
        Err(_) => None,
    }
}

/// `validate_id`: a proposal id must be a UUID.
pub fn validate_id(id: &str) -> (r: Result<(), HkError>)
    ensures
        uuid_ok(id@) ==> r is Ok,
        !uuid_ok(id@) ==> (r matches Err(e) && e@ == HkErrorV::Validation("invalid proposal id"@)),
{
    if uuid_parses(id) {
        Ok(())
    } else {
        Err(HkError::Validation("invalid proposal id".to_owned()))
    }
}

/// Why no proposal id could be made.
pub open spec fn id_failure() -> HkErrorV {
    HkErrorV::Internal("could not draw random bytes for a proposal id"@)
}

/// Why no creation time could be read.
pub open spec fn clock_failure() -> HkErrorV {
    HkErrorV::Internal("the system clock is out of range"@)
}

/// A proposal from its id (none where no random bytes could be drawn) and
/// the time since 1970 in seconds and nanoseconds (none where the clock
/// reads before it), the rest as `new_proposal` makes it.
pub fn assemble_proposal(
    id: Option<String>,
    time: Option<(u64, u32)>,
    title: String,
    summary: String,
    risk: &str,
    actions: &Vec<ChangeAction>,
) -> (r: Result<StewardProposal, HkError>)
    ensures
        id is None ==> (r matches Err(e) && e@ == id_failure()),
        id is Some && (time is None || (time matches Some((secs, _)) && secs > i64::MAX)) ==> (r matches Err(e) && e@ == clock_failure()),
        match (id, time) {
            (Some(i), Some((secs, nanos))) => secs <= i64::MAX ==> (r matches Ok(p) && fresh_proposal(
                p,
                title@,
                summary@,
                risk@,
                actions@,
            ) && p.id == i && p.created_at == (Timestamp { secs: secs as i64, nanos })),
            _ => true,
        },
{
    let id = match id {
        Some(i) => i,
        None => {
            return Err(HkError::Internal("could not draw random bytes for a proposal id".to_owned()));
        },
    };
    match time {
        Some((secs, nanos)) => {
            if secs <= i64::MAX as u64 {
                Ok(new_proposal(id, title, summary, risk, actions, Timestamp { secs: secs as i64, nanos }))
            } else {
                Err(HkError::Internal("the system clock is out of range".to_owned()))
            }
        },
        None => Err(HkError::Internal("the system clock is out of range".to_owned())),
    }
}

/// `create_proposal` without its writes: a fresh version-4 UUID, the current
/// time, and the rest as `new_proposal` makes it; an error, and no panic,
/// where the random source or the clock fails.
pub fn create_proposal(title: String, summary: String, risk: &str, actions: &Vec<ChangeAction>) -> (r: Result<
    StewardProposal,
    HkError,
>)
    ensures
        r matches Ok(p) ==> fresh_proposal(p, title@, summary@, risk@, actions@) && hyphenated_s(p.id@)
            && uuid_ok(p.id@),
        r matches Err(e) ==> e@ == id_failure() || e@ == clock_failure(),
{
    let id = match random_bytes() {
        Some(b) => {
            proof {
                lemma_v4_hyphenated(b@);
            }
            Some(v4_text(&b))
        },
        None => None,
    };
    let time = unix_time();
    let r = assemble_proposal(id, time, title, summary, risk, actions);
    r
}

/// Where proposals are kept.
pub fn proposals_dir(home: &str) -> (p: String)
    ensures
        p@ == join_s(home@, ".harnesskit/steward/proposals"@),
{
    join(home, ".harnesskit/steward/proposals")
}

/// The file of proposal `id`.
pub fn proposal_path(home: &str, id: &str) -> (p: String)
    ensures
        p@ == join_s(join_s(home@, ".harnesskit/steward/proposals"@), id@ + ".json"@),
{
    let dir = proposals_dir(home);
    let name = cat(id, ".json");
    join(dir.as_str(), name.as_str())
}

/// The answer to a request to approve or reject proposal `id` in state
/// `status`: only a pending proposal may change.
pub open spec fn gate_s(id: Seq<char>, status: Seq<char>) -> Result<(), HkErrorV> {
    if status == "pending"@ {
        Ok(())
    } else {
        Err(HkErrorV::Conflict("proposal "@ + id + " is already "@ + status))
    }
}

/// The check `approve` and `reject` make first.
pub fn review_gate(id: &str, proposal: &StewardProposal) -> (r: Result<(), HkError>)
    ensures
        crate::steward::unit_v(r) == gate_s(id@, proposal.status@),
{
    if str_is(proposal.status.as_str(), "pending") {
        Ok(())
    } else {
        let mut m = "proposal ".to_owned();
        push_str(&mut m, id);
        push_str(&mut m, " is already ");
        push_str(&mut m, proposal.status.as_str());
        Err(HkError::Conflict(m))
    }
}

/// `after` is `before` with its status set to `status`, nothing else changed.
pub open spec fn restated(before: StoredProposal, after: StoredProposal, status: Seq<char>) -> bool {
    &&& after.proposal.status@ == status
    &&& after.proposal.id == before.proposal.id
    &&& after.proposal.title == before.proposal.title
    &&& after.proposal.summary == before.proposal.summary
    &&& after.proposal.diff == before.proposal.diff
    &&& after.proposal.risk == before.proposal.risk
    &&& after.proposal.validations == before.proposal.validations
    &&& after.proposal.created_at == before.proposal.created_at
    &&& after.actions == before.actions
    &&& after.source_hashes == before.source_hashes
}

/// `reject` without its writes: a pending proposal becomes rejected.
pub fn reject_stored(id: &str, stored: StoredProposal) -> (r: Result<StoredProposal, HkError>)
    ensures
        match gate_s(id@, stored.proposal.status@) {
            Err(e) => r matches Err(x) && x@ == e,
            Ok(()) => r matches Ok(s) && restated(stored, s, "rejected"@),
        },
{
    review_gate(id, &stored.proposal)?;
    let mut stored = stored;
    stored.proposal.status = "rejected".to_owned();
    Ok(stored)
}

/// The end of `approve`: the proposal is approved when its changes applied
/// and validated, failed otherwise.
pub fn settle_approval(stored: StoredProposal, applied: bool) -> (s: StoredProposal)
    ensures
        restated(
            stored,
            s,
            if applied {
                "approved"@
            } else {
                "failed"@
            },
        ),
{
    let mut stored = stored;
    stored.proposal.status = if applied {
        "approved".to_owned()
    } else {
        "failed".to_owned()
    };
    stored
}

/// A proposal that was rejected cannot then be approved (or rejected again):
/// the review gate refuses it with a conflict naming its status.
pub proof fn law_rejected_is_final(id: Seq<char>, before: StoredProposal, after: StoredProposal)
    requires
        restated(before, after, "rejected"@),
    ensures
        gate_s(id, after.proposal.status@) == Err::<(), HkErrorV>(
            HkErrorV::Conflict("proposal "@ + id + " is already rejected"@),
        ),
{
    reveal_strlit("rejected");
    reveal_strlit("pending");
    reveal_strlit(" is already ");
    reveal_strlit(" is already rejected");
    assert("rejected"@[0] != "pending"@[0]);
    assert("proposal "@ + id + " is already "@ + "rejected"@ =~= "proposal "@ + id
        + " is already rejected"@);
}

/// An approval settles a proposal for good: whether it applied or failed,
/// a second approval is refused with a conflict.
pub proof fn law_settled_is_final(id: Seq<char>, before: StoredProposal, after: StoredProposal, applied: bool)
    requires
        restated(
            before,
            after,
            if applied {
                "approved"@
            } else {
                "failed"@
            },
        ),
    ensures
        gate_s(id, after.proposal.status@) is Err,
        gate_s(id, after.proposal.status@) matches Err(e) && e is Conflict,
{
    reveal_strlit("approved");
    reveal_strlit("failed");
    reveal_strlit("pending");
    assert("approved"@[0] != "pending"@[0]);
    assert("failed"@[0] != "pending"@[0]);
}

/// A memory edit of more than `MAX_MEMORY_EDIT_BYTES` bytes is refused.
pub open spec fn memory_size_s(content: Seq<char>) -> Result<(), HkErrorV> {
    if byte_len(content) > MAX_MEMORY_EDIT_BYTES {
        Err(HkErrorV::Validation("memory content is too large"@))
    } else {
        Ok(())
    }
}

/// The size check of a memory edit, made when it is proposed and again
/// before it is written.
pub fn check_memory_size(content: &str) -> (r: Result<(), HkError>)
    ensures
        crate::steward::unit_v(r) == memory_size_s(content@),
{
    if content.len() > MAX_MEMORY_EDIT_BYTES {
        Err(HkError::Validation("memory content is too large".to_owned()))
    } else {
        Ok(())
    }
}

/// The title, summary and single change of the proposal that replaces the
/// memory file `target` (already checked to belong to `agent`).
pub fn memory_edit_request(agent: &str, target: &str, content: &str) -> (r: (
    String,
    String,
    Vec<ChangeAction>,
))
    ensures
        r.0@ == "Edit private "@ + agent@ + " memory"@,
        r.1@ == "Replace "@ + target@ + " after explicit approval."@,
        r.2@.len() == 1,
        r.2@[0] matches ChangeAction::MemoryReplace { agent: a, path: p, content: c } && a@ == agent@
            && p@ == target@ && c@ == content@,
{
    let mut title = "Edit private ".to_owned();
    push_str(&mut title, agent);
    push_str(&mut title, " memory");
    let mut summary = "Replace ".to_owned();
    push_str(&mut summary, target);
    push_str(&mut summary, " after explicit approval.");
    let action = ChangeAction::MemoryReplace {
        agent: agent.to_owned(),
        path: target.to_owned(),
        content: content.to_owned(),
    };
    (title, summary, vec![action])
}

/// `config_path` as a result over texts.
pub open spec fn config_result(home: Seq<char>, agent: Seq<char>) -> Result<Seq<char>, HkErrorV> {
    if is_brain_agent(agent) {
        Ok(join_s(home, crate::steward::config_rel(agent)))
    } else {
        Err(unknown_agent(agent))
    }
}

/// One result as a one-path list.
pub open spec fn one_path(r: Result<Seq<char>, HkErrorV>) -> Result<Seq<Seq<char>>, HkErrorV> {
    match r {
        Ok(p) => Ok(seq![p]),
        Err(e) => Err(e),
    }
}

/// The files one change writes. `memory` is the checked path of a memory
/// edit (see `steward::memory_target`); other changes ignore it.
pub open spec fn change_paths_s(
    home: Seq<char>,
    a: ChangeAction,
    configured: Option<Seq<char>>,
    memory: Result<Seq<char>, HkErrorV>,
) -> Result<Seq<Seq<char>>, HkErrorV> {
    match a {
        ChangeAction::SkillsMigrate => Ok(
            seq![
                join_s(home, ".agents/skills"@),
                join_s(home, ".hermes/config.yaml"@),
                join_s(home, ".openclaw/openclaw.json"@),
            ],
        ),
        ChangeAction::McpToggle { agent, .. } => match config_result(home, agent@) {
            Ok(p) => Ok(seq![join_s(home, ".harnesskit/shared/mcp-registry.yaml"@), p]),
            Err(e) => Err(e),
        },
        ChangeAction::ConfigSet { agent, .. } => one_path(config_result(home, agent@)),
        ChangeAction::PersonaReplace { agent, file, .. } => one_path(
            crate::steward::persona_result(home, agent@, file@, configured),
        ),
        ChangeAction::MemoryReplace { .. } => one_path(memory),
    }
}

/// The files a list of changes writes, change by change; the first change
/// whose files cannot be named gives the error. `memory[i]` goes with
/// change `i`.
pub open spec fn action_paths_s(
    home: Seq<char>,
    actions: Seq<ChangeAction>,
    configured: Option<Seq<char>>,
    memory: Seq<Result<Seq<char>, HkErrorV>>,
) -> Result<Seq<Seq<char>>, HkErrorV>
    decreases actions.len(),
{
    if actions.len() == 0 {
        Ok(Seq::empty())
    } else {
        match action_paths_s(home, actions.drop_last(), configured, memory) {
            Err(e) => Err(e),
            Ok(ps) => match change_paths_s(
                home,
                actions.last(),
                configured,
                memory[actions.len() - 1],
            ) {
                Err(e) => Err(e),
                Ok(qs) => Ok(ps + qs),
            },
        }
    }
}

/// The texts of a list of results.
pub open spec fn texts_v(v: Seq<Result<String, HkError>>) -> Seq<Result<Seq<char>, HkErrorV>> {
    v.map_values(|r: Result<String, HkError>| text_v(r))
}

/// The files one change writes.
fn change_paths(
    home: &str,
    a: &ChangeAction,
    configured: &Option<String>,
    memory: &Result<String, HkError>,
    out: &mut Vec<String>,
) -> (r: Result<(), HkError>)
    ensures
        match change_paths_s(home@, *a, otext(*configured), text_v(*memory)) {
            Ok(qs) => r is Ok && strs(final(out)@) == strs(old(out)@) + qs,
            Err(e) => r matches Err(x) && x@ == e,
        },
{
    match a {
        ChangeAction::SkillsMigrate => {
            let ghost before = strs(out@);
            out.push(join(home, ".agents/skills"));
            out.push(join(home, ".hermes/config.yaml"));
            out.push(join(home, ".openclaw/openclaw.json"));
            proof {
                assert(strs(out@) =~= before + change_paths_s(
                    home@,
                    *a,
                    otext(*configured),
                    text_v(*memory),
                )->Ok_0);
            }
            Ok(())
        },
        ChangeAction::McpToggle { agent, .. } => {
            let p = crate::steward::config_path(home, agent.as_str())?;
            let ghost before = strs(out@);
            out.push(crate::registry::registry_path_in(home));
            out.push(p);
            proof {
                assert(strs(out@) =~= before + change_paths_s(
                    home@,
                    *a,
                    otext(*configured),
                    text_v(*memory),
                )->Ok_0);
            }
            Ok(())
        },
        ChangeAction::ConfigSet { agent, .. } => {
            let p = crate::steward::config_path(home, agent.as_str())?;
            let ghost before = strs(out@);
            out.push(p);
            proof {
                assert(strs(out@) =~= before.push(p@));
            }
            Ok(())
        },
        ChangeAction::PersonaReplace { agent, file, .. } => {
            let p = persona_path(home, agent.as_str(), file.as_str(), configured)?;
            let ghost before = strs(out@);
            out.push(p);
            proof {
                assert(strs(out@) =~= before.push(p@));
            }
            Ok(())
        },
        ChangeAction::MemoryReplace { .. } => {
            match memory {
                Ok(p) => {
                    let ghost before = strs(out@);
                    out.push(p.clone());
                    proof {
                        assert(strs(out@) =~= before.push(p@));
                    }
                    Ok(())
                },
                Err(e) => Err(e.dup()),
            }
        },
    }
}

/// `action_targets`: the files a proposal's changes write, sorted by path,
/// each once. `memory[i]` is the result of checking the target of change
/// `i` when it is a memory edit (`steward::memory_target` and the checks on
/// disk that follow it); it is not read for other changes.
pub fn action_targets(
    home: &str,
    actions: &Vec<ChangeAction>,
    configured: &Option<String>,
    memory: &Vec<Result<String, HkError>>,
) -> (r: Result<Vec<String>, HkError>)
    requires
        memory@.len() == actions@.len(),
    ensures
        match action_paths_s(home@, actions@, otext(*configured), texts_v(memory@)) {
            Err(e) => r matches Err(x) && x@ == e,
            Ok(ps) => r matches Ok(v) && crate::order::sorted_unique(strs(v@)) && (forall|q: Seq<char>|
                crate::order::listed_path(strs(v@), q) <==> crate::order::listed_path(ps, q))
                && (forall|i: int| 0 <= i < v@.len() ==> ps.contains(#[trigger] v@[i]@))
                && (forall|i: int| 0 <= i < v@.len() ==> crate::order::kept_first(ps, #[trigger] v@[i]@, ps.len() as int)),
        },
{
    let mut paths: Vec<String> = Vec::new();
    let mut i: usize = 0;
    let ghost m = texts_v(memory@);
    proof {
        assert(strs(paths@) =~= Seq::<Seq<char>>::empty());
    }
    while i < actions.len()
        invariant
            i <= actions@.len(),
            memory@.len() == actions@.len(),
            m == texts_v(memory@),
            action_paths_s(home@, actions@.take(i as int), otext(*configured), m)
                == Ok::<Seq<Seq<char>>, HkErrorV>(strs(paths@)),
        decreases actions@.len() - i,
    {
        proof {
            assert(actions@.take(i + 1).drop_last() =~= actions@.take(i as int));
            assert(actions@.take(i + 1).last() == actions@[i as int]);
            assert(m[i as int] == text_v(memory@[i as int]));
        }
        let r = change_paths(home, &actions[i], configured, &memory[i], &mut paths);
        if let Err(e) = r {
            proof {
                lemma_paths_stop(home@, actions@, otext(*configured), m, i as int + 1);
            }
            return Err(e);
        }
        i += 1;
    }
    proof {
        assert(actions@.take(i as int) =~= actions@);
    }
    let v = crate::order::sort_paths(&paths);
    Ok(v)
}

/// Once the changes so far fail, the whole list fails the same way.
proof fn lemma_paths_stop(
    home: Seq<char>,
    actions: Seq<ChangeAction>,
    configured: Option<Seq<char>>,
    memory: Seq<Result<Seq<char>, HkErrorV>>,
    n: int,
)
    requires
        1 <= n <= actions.len(),
        action_paths_s(home, actions.take(n), configured, memory) is Err,
    ensures
        action_paths_s(home, actions, configured, memory) == action_paths_s(
            home,
            actions.take(n),
            configured,
            memory,
        ),
    decreases actions.len() - n,
{
    if n < actions.len() {
        assert(actions.take(n + 1).drop_last() =~= actions.take(n));
        lemma_paths_stop(home, actions, configured, memory, n + 1);
    } else {
        assert(actions.take(n) =~= actions);
    }
}

/// The verdict on the hashes a proposal recorded, given the hash each file
/// has now (or the error hashing it gave), entry by entry in key order: the
/// first failure to hash, or the first file whose hash changed, decides.
pub open spec fn hashes_verdict(
    recorded: Seq<(String, String)>,
    actual: Seq<Result<String, HkError>>,
) -> Result<(), HkErrorV>
    decreases recorded.len(),
{
    if recorded.len() == 0 || actual.len() == 0 {
        Ok(())
    } else {
        match actual[0] {
            Err(e) => Err(e@),
            Ok(h) => if h@ != recorded[0].1@ {
                Err(HkErrorV::Conflict(recorded[0].0@ + " changed after proposal creation"@))
            } else {
                hashes_verdict(recorded.drop_first(), actual.drop_first())
            },
        }
    }
}

/// `verify_hashes`: `actual[i]` is what hashing the file of the `i`-th
/// recorded entry gives now.
pub fn verify_hashes(
    hashes: &crate::smap::StrMap<String>,
    actual: &Vec<Result<String, HkError>>,
) -> (r: Result<(), HkError>)
    ensures
        crate::steward::unit_v(r) == hashes_verdict(hashes.entries(), actual@),
{
    let n: usize = if hashes.len() < actual.len() {
        hashes.len()
    } else {
        actual.len()
    };
    let mut i: usize = 0;
    proof {
        assert(hashes.entries().skip(0) =~= hashes.entries());
        assert(actual@.skip(0) =~= actual@);
    }
    while i < n
        invariant
            i <= n,
            n <= hashes.entries().len(),
            n <= actual@.len(),
            n == hashes.entries().len() || n == actual@.len(),
            hashes_verdict(hashes.entries(), actual@) == hashes_verdict(
                hashes.entries().skip(i as int),
                actual@.skip(i as int),
            ),
        decreases n - i,
    {
        proof {
            assert(hashes.entries().skip(i as int)[0] == hashes.entries()[i as int]);
            assert(actual@.skip(i as int)[0] == actual@[i as int]);
            assert(hashes.entries().skip(i as int).drop_first() =~= hashes.entries().skip(i + 1));
            assert(actual@.skip(i as int).drop_first() =~= actual@.skip(i + 1));
        }
        match &actual[i] {
            Err(e) => {
                return Err(e.dup());
            },
            Ok(h) => {
                if !str_is(h.as_str(), hashes.value_at(i).as_str()) {
                    let mut m = hashes.key_at(i).clone();
                    push_str(&mut m, " changed after proposal creation");
                    return Err(HkError::Conflict(m));
                }
            },
        }
        i += 1;
    }
    Ok(())
}

/// `a` is earlier than `b`.
pub open spec fn earlier(a: Timestamp, b: Timestamp) -> bool {
    a.secs < b.secs || (a.secs == b.secs && a.nanos < b.nanos)
}

/// Proposals with the newest first.
pub open spec fn newest_first(s: Seq<StewardProposal>) -> bool {
    forall|i: int, j: int|
        0 <= i < j < s.len() ==> !earlier(#[trigger] s[i].created_at, #[trigger] s[j].created_at)
}

/// Proposals made at instant `t`.
pub open spec fn made_at(t: Timestamp) -> spec_fn(StewardProposal) -> bool {
    |p: StewardProposal| p.created_at == t
}

/// The order `list_proposals` returns proposals in: newest first; proposals
/// made at the same instant keep their order (the sort is stable).
pub fn sort_newest_first(v: Vec<StewardProposal>) -> (r: Vec<StewardProposal>)
    ensures
        newest_first(r@),
        r@.to_multiset() == v@.to_multiset(),
        forall|t: Timestamp| #[trigger] r@.filter(made_at(t)) == v@.filter(made_at(t)),
{
    let mut out: Vec<StewardProposal> = Vec::new();
    let mut rest = v;
    let ghost all = rest@;
    let ghost mut taken: int = 0;
    proof {
        assert(all.take(0) =~= Seq::<StewardProposal>::empty());
        assert(all.skip(0) =~= all);
    }
    while rest.len() > 0
        invariant
            0 <= taken <= all.len(),
            taken + rest@.len() == all.len(),
            rest@ == all.skip(taken),
            newest_first(out@),
            out@.to_multiset() == all.take(taken).to_multiset(),
            forall|t: Timestamp| #[trigger] out@.filter(made_at(t)) == all.take(taken).filter(made_at(t)),
        decreases rest@.len(),
    {
        let x = rest.remove(0);
        proof {
            assert(x == all[taken]);
            assert(rest@ =~= all.skip(taken + 1));
        }
        let mut p: usize = 0;
        while p < out.len() && !(out[p].created_at.secs < x.created_at.secs || (out[p].created_at.secs
            == x.created_at.secs && out[p].created_at.nanos < x.created_at.nanos))
            invariant
                p <= out@.len(),
                forall|k: int| 0 <= k < p ==> !earlier(#[trigger] out@[k].created_at, x.created_at),
            decreases out@.len() - p,
        {
            p += 1;
        }
        proof {
            if p < out@.len() {
                assert(earlier(out@[p as int].created_at, x.created_at));
            }
        }
        let ghost before = out@;
        let ghost xv = x;
        out.insert(p, x);
        proof {
            assert forall|i: int, j: int| 0 <= i < j < out@.len() implies !earlier(
                #[trigger] out@[i].created_at,
                #[trigger] out@[j].created_at,
            ) by {
                if i < p && j > p {
                    assert(out@[i] == before[i] && out@[j] == before[j - 1]);
                } else if i < p && j == p {
                    assert(out@[i] == before[i]);
                } else if i == p && j > p {
                    assert(out@[j] == before[j - 1]);
                    if j - 1 > p {
                        assert(!earlier(before[p as int].created_at, before[j - 1].created_at));
                    }
                } else if i > p {
                    assert(out@[i] == before[i - 1] && out@[j] == before[j - 1]);
                } else {
                    assert(out@[i] == before[i] && out@[j] == before[j]);
                }
            }
            vstd::seq_lib::to_multiset_insert(before, p as int, xv);
            assert(all.take(taken + 1) =~= all.take(taken).push(xv));
            vstd::seq_lib::to_multiset_build(all.take(taken), xv);
            lemma_insert_keeps_ties(before, p as int, xv);
            assert forall|t: Timestamp| #[trigger] out@.filter(made_at(t)) == all.take(taken + 1).filter(
                made_at(t),
            ) by {
                all.take(taken).lemma_filter_push(xv, made_at(t));
            }
            taken = taken + 1;
        }
    }
    proof {
        assert(all.take(taken) =~= all);
    }
    out
}

/// Inserting `x` where `sort_newest_first` does (after every proposal not
/// earlier than it, before the rest) adds it last among those made at its
/// instant and leaves the others as they were.
proof fn lemma_insert_keeps_ties(before: Seq<StewardProposal>, p: int, x: StewardProposal)
    requires
        0 <= p <= before.len(),
        newest_first(before),
        p < before.len() ==> earlier(before[p].created_at, x.created_at),
    ensures
        forall|t: Timestamp|
            #[trigger] before.insert(p, x).filter(made_at(t)) == if x.created_at == t {
                before.filter(made_at(t)).push(x)
            } else {
                before.filter(made_at(t))
            },
{
    let a = before.take(p);
    let b = before.skip(p);
    assert(before =~= a + b);
    assert(before.insert(p, x) =~= a + seq![x] + b);
    assert forall|t: Timestamp| #[trigger] before.insert(p, x).filter(made_at(t)) == if x.created_at == t {
        before.filter(made_at(t)).push(x)
    } else {
        before.filter(made_at(t))
    } by {
        let f = made_at(t);
        Seq::filter_distributes_over_add(a + seq![x], b, f);
        Seq::filter_distributes_over_add(a, seq![x], f);
        Seq::filter_distributes_over_add(a, b, f);
        Seq::<StewardProposal>::empty().lemma_filter_push(x, f);
        assert(Seq::<StewardProposal>::empty().push(x) =~= seq![x]);
        assert(Seq::<StewardProposal>::empty().filter(f) =~= Seq::<StewardProposal>::empty()) by {
            reveal(Seq::filter);
        }
        if x.created_at == t {
            assert forall|i: int| 0 <= i < b.len() implies !f(#[trigger] b[i]) by {
                assert(b[i] == before[p + i]);
                if i > 0 {
                    assert(!earlier(before[p].created_at, before[p + i].created_at));
                }
            }
            b.lemma_all_neg_filter_empty(f);
            assert(b.filter(f) =~= Seq::<StewardProposal>::empty());
            assert(a.filter(f) + seq![x] + b.filter(f) =~= (a.filter(f) + b.filter(f)).push(x));
        } else {
            assert(a.filter(f) + Seq::<StewardProposal>::empty() + b.filter(f) =~= a.filter(f) + b.filter(f));
        }
    }
}

/// Some change migrates Skills.
pub open spec fn migrates_changes(actions: Seq<ChangeAction>) -> bool {
    exists|i: int| 0 <= i < actions.len() && #[trigger] actions[i] is SkillsMigrate
}

/// The files whose hashes a new proposal records (`source_hashes`): its
/// targets and, when it migrates Skills, each personal Skill directory the
/// migration reads.
pub fn hashed_paths(targets: &Vec<String>, actions: &Vec<ChangeAction>, skill_dirs: &Vec<String>) -> (v:
    Vec<String>)
    ensures
        strs(v@) == strs(targets@) + if migrates_changes(actions@) {
            strs(skill_dirs@)
        } else {
            Seq::empty()
        },
{
    let mut v = crate::text::dup_strs(targets);
    let mut migrate = false;
    let mut i: usize = 0;
    while i < actions.len()
        invariant
            i <= actions@.len(),
            migrate == exists|j: int| 0 <= j < i && #[trigger] actions@[j] is SkillsMigrate,
        decreases actions@.len() - i,
    {
        if let ChangeAction::SkillsMigrate = actions[i] {
            migrate = true;
        }
        i += 1;
    }
    if migrate {
        let mut k: usize = 0;
        let ghost base = strs(v@);
        while k < skill_dirs.len()
            invariant
                k <= skill_dirs@.len(),
                strs(v@) == base + strs(skill_dirs@).take(k as int),
            decreases skill_dirs@.len() - k,
        {
            let ghost before = strs(v@);
            v.push(skill_dirs[k].clone());
            proof {
                assert(strs(v@) =~= before.push(skill_dirs@[k as int]@));
                assert(strs(skill_dirs@).take(k + 1) =~= strs(skill_dirs@).take(k as int).push(
                    skill_dirs@[k as int]@,
                ));
                assert(strs(v@) =~= base + strs(skill_dirs@).take(k + 1));
            }
            k += 1;
        }
        proof {
            assert(strs(skill_dirs@).take(k as int) =~= strs(skill_dirs@));
        }
    } else {
        proof {
            assert(strs(v@) =~= strs(v@) + Seq::<Seq<char>>::empty());
        }
    }
    v
}

/// Every action of an accepted list passes its own check.
proof fn lemma_actions_pass(
    actions: Seq<ModelAction>,
    root_ws: Option<Seq<char>>,
    skills: Option<Result<bool, HkErrorV>>,
)
    requires
        check_actions_s(actions, root_ws, skills) is Ok,
    ensures
        forall|i: int| 0 <= i < actions.len() ==> (check_action_s(#[trigger] actions[i], root_ws, skills) is Ok),
    decreases actions.len(),
{
    if actions.len() > 0 {
        lemma_actions_pass(actions.drop_last(), root_ws, skills);
        assert forall|i: int| 0 <= i < actions.len() implies (check_action_s(
            #[trigger] actions[i],
            root_ws,
            skills,
        ) is Ok) by {
            if i < actions.len() - 1 {
                assert(actions.drop_last()[i] == actions[i]);
            }
        }
    }
}

/// Only known, checked actions get through: a model proposal that is
/// accepted has a title, a summary and one to eight actions, each on a
/// managed agent, each config key editable, each persona file allowed and
/// small enough, each MCP server name plain, and no Skill migration while
/// names are in conflict.
pub proof fn law_accepted_actions_pass(
    m: ModelProposal,
    root_ws: Option<Seq<char>>,
    skills: Option<Result<bool, HkErrorV>>,
)
    requires
        validate_s(m, root_ws, skills) is Ok,
    ensures
        trim_s(m.title@).len() > 0,
        trim_s(m.summary@).len() > 0,
        1 <= m.actions@.len() <= 8,
        forall|i: int| 0 <= i < m.actions@.len() ==> (check_action_s(#[trigger] m.actions@[i], root_ws, skills) is Ok),
{
    lemma_actions_pass(m.actions@, root_ws, skills);
}

/// Models cannot edit memory: no action a model proposes becomes a memory
/// replacement.
pub proof fn law_model_actions_spare_memory(a: ModelAction)
    ensures
        !(<ChangeAction as vstd::std_specs::convert::FromSpec<ModelAction>>::from_spec(a) is MemoryReplace),
{
}

/// Unchanged files pass the recheck: when hashing each recorded file again
/// gives the hash recorded for it, approval goes on.
pub proof fn law_unchanged_files_pass(
    recorded: Seq<(String, String)>,
    actual: Seq<Result<String, HkError>>,
)
    requires
        actual.len() == recorded.len(),
        forall|i: int| 0 <= i < actual.len() ==> (#[trigger] actual[i] matches Ok(h) && h@ == recorded[i].1@),
    ensures
        hashes_verdict(recorded, actual) == Ok::<(), HkErrorV>(()),
    decreases recorded.len(),
{
    if recorded.len() > 0 {
        assert(actual[0] matches Ok(h) && h@ == recorded[0].1@);
        assert forall|i: int| 0 <= i < actual.drop_first().len() implies (#[trigger] actual.drop_first()[i] matches Ok(
            h,
        ) && h@ == recorded.drop_first()[i].1@) by {
            assert(actual.drop_first()[i] == actual[i + 1]);
            assert(recorded.drop_first()[i] == recorded[i + 1]);
        }
        law_unchanged_files_pass(recorded.drop_first(), actual.drop_first());
    }
}

/// A file changed since the proposal was made blocks its approval: if any
/// recorded file now hashes differently, the recheck fails.
pub proof fn law_changed_file_blocks(
    recorded: Seq<(String, String)>,
    actual: Seq<Result<String, HkError>>,
    i: int,
)
    requires
        0 <= i < recorded.len(),
        i < actual.len(),
        actual[i] matches Ok(h) && h@ != recorded[i].1@,
    ensures
        hashes_verdict(recorded, actual) is Err,
    decreases i,
{
    if i > 0 {
        assert(actual.drop_first()[i - 1] == actual[i]);
        assert(recorded.drop_first()[i - 1] == recorded[i]);
        law_changed_file_blocks(recorded.drop_first(), actual.drop_first(), i - 1);
    }
}

/// What `approve` checks before it touches any file: the proposal is still
/// pending, every file it recorded hashes as it did, and the files its
/// changes write can all be named. The first failing check decides.
pub open spec fn approval_checks_s(
    id: Seq<char>,
    stored: StoredProposal,
    home: Seq<char>,
    configured: Option<Seq<char>>,
    actual: Seq<Result<String, HkError>>,
    memory: Seq<Result<String, HkError>>,
) -> Result<Seq<Seq<char>>, HkErrorV> {
    match gate_s(id, stored.proposal.status@) {
        Err(e) => Err(e),
        Ok(()) => match hashes_verdict(stored.source_hashes.entries(), actual) {
            Err(e) => Err(e),
            Ok(()) => action_paths_s(home, stored.actions@, configured, texts_v(memory)),
        },
    }
}

/// The checks of `approve` before any write, given the hashes the recorded
/// files have now (`actual`, in key order) and the checked targets of its
/// memory edits (`memory`, one per change; see `action_targets`). On
/// success, the files to back up and then write, sorted by path, each once.
pub fn prepare_approval(
    id: &str,
    stored: &StoredProposal,
    home: &str,
    configured: &Option<String>,
    actual: &Vec<Result<String, HkError>>,
    memory: &Vec<Result<String, HkError>>,
) -> (r: Result<Vec<String>, HkError>)
    requires
        memory@.len() == stored.actions@.len(),
    ensures
        match approval_checks_s(id@, *stored, home@, otext(*configured), actual@, memory@) {
            Err(e) => r matches Err(x) && x@ == e,
            Ok(ps) => r matches Ok(v) && crate::order::sorted_unique(strs(v@)) && (forall|q: Seq<char>|
                crate::order::listed_path(strs(v@), q) <==> crate::order::listed_path(ps, q))
                && (forall|i: int| 0 <= i < v@.len() ==> ps.contains(#[trigger] v@[i]@))
                && (forall|i: int| 0 <= i < v@.len() ==> crate::order::kept_first(ps, #[trigger] v@[i]@, ps.len() as int)),
        },
{
    review_gate(id, &stored.proposal)?;
    verify_hashes(&stored.source_hashes, actual)?;
    action_targets(home, &stored.actions, configured, memory)
}

/// The error `approve` reports when applying failed: the failure itself,
/// or, when restoring the backups failed too, both.
pub open spec fn failure_report_s(error: HkErrorV, rollback: Result<(), HkErrorV>) -> HkErrorV {
    match rollback {
        Ok(()) => error,
        Err(r) => HkErrorV::Internal(
            "apply failed: "@ + crate::error::message_of(error) + "; rollback failed: "@
                + crate::error::message_of(r),
        ),
    }
}

/// `failure_report_s`.
pub fn failure_report(error: &HkError, rollback: &Result<(), HkError>) -> (e: HkError)
    ensures
        e@ == failure_report_s(error@, crate::steward::unit_v(*rollback)),
{
    match rollback {
        Ok(()) => error.dup(),
        Err(r) => {
            let mut m = "apply failed: ".to_owned();
            let a = error.message();
            push_str(&mut m, a.as_str());
            push_str(&mut m, "; rollback failed: ");
            let b = r.message();
            push_str(&mut m, b.as_str());
            HkError::Internal(m)
        },
    }
}

/// Nothing is written for a proposal that is no longer pending or whose
/// files changed since it was made: the checks before any write refuse it.
pub proof fn law_no_write_without_checks(
    id: Seq<char>,
    stored: StoredProposal,
    home: Seq<char>,
    configured: Option<Seq<char>>,
    actual: Seq<Result<String, HkError>>,
    memory: Seq<Result<String, HkError>>,
)
    requires
        approval_checks_s(id, stored, home, configured, actual, memory) is Ok,
    ensures
        stored.proposal.status@ == "pending"@,
        hashes_verdict(stored.source_hashes.entries(), actual) is Ok,
{
}

} // verus!

//! Turning a user's prompt into a proposal without asking a model, when the
//! prompt is one of the two requests the Steward understands by itself.
use vstd::prelude::*;
use crate::doc::Doc;
use crate::text::{
    chars_of, contains, contains_s, find, find_s, is_whitespace, is_ws, lower, lower_s, slice_of,
    starts_with, starts_with_s, string_of, trim_start, trim_start_s,
};

verus! {

/// A change a model (or the Steward itself) may propose. Memory edits are
/// not among them: they enter only through an explicit memory edit request.
pub enum ModelAction {
    SkillsMigrate,
    McpToggle { server: String, agent: String, enabled: bool },
    ConfigSet { agent: String, key: String, value: Doc },
    PersonaReplace { agent: String, file: String, content: String },
}

/// A proposal as a model writes it.
pub struct ModelProposal {
    pub title: String,
    pub summary: String,
    pub risk: String,
    pub actions: Vec<ModelAction>,
}

/// `char::is_alphanumeric`: alphabetic or numeric in Unicode's sense.
pub uninterp spec fn alnum_s(c: char) -> bool;

/// `char::is_alphanumeric`. Its result is named, not spelled out: the
/// Unicode tables behind it are left to std.
#[verifier::external_body]
fn is_alphanumeric(c: char) -> (b: bool)
    ensures
        b == alnum_s(c),
{
    c.is_alphanumeric()
}

/// The characters `parse_mcp_toggle` trims off a server name: anything but
/// letters, digits, `-` and `_`.
pub open spec fn junk(c: char) -> bool {
    !alnum_s(c) && c != '-' && c != '_'
}

/// `s` without junk at either end, as `str::trim_matches` leaves it.
pub open spec fn trim_junk_s(s: Seq<char>) -> Seq<char>
    decreases s.len(),
{
    if s.len() > 0 && junk(s[0]) {
        trim_junk_s(s.drop_first())
    } else if s.len() > 0 && junk(s.last()) {
        trim_junk_s(s.drop_last())
    } else {
        s
    }
}

/// `trim_junk_s`.
fn trim_junk(s: &Vec<char>) -> (r: Vec<char>)
    ensures
        r@ == trim_junk_s(s@),
{
    let mut a: usize = 0;
    let mut b: usize = s.len();
    proof {
        assert(s@.subrange(0, s@.len() as int) =~= s@);
    }
    while a < b && (junk_char(s[a]) || junk_char(s[b - 1]))
        invariant
            a <= b <= s@.len(),
            trim_junk_s(s@) == trim_junk_s(s@.subrange(a as int, b as int)),
        decreases b - a,
    {
        let ghost t = s@.subrange(a as int, b as int);
        if junk_char(s[a]) {
            proof {
                assert(t.drop_first() =~= s@.subrange(a + 1, b as int));
            }
            a += 1;
        } else {
            proof {
                assert(t.drop_last() =~= s@.subrange(a as int, b - 1));
            }
            b -= 1;
        }
    }
    slice_of(s.as_slice(), a, b)
}

/// `junk`.
fn junk_char(c: char) -> (b: bool)
    ensures
        b == junk(c),
{
    !is_alphanumeric(c) && c != '-' && c != '_'
}

/// The pieces of `s` between white-space characters.
pub open spec fn ws_split_s(s: Seq<char>) -> Seq<Seq<char>>
    decreases s.len(),
{
    if s.len() == 0 {
        seq![Seq::<char>::empty()]
    } else {
        let r = ws_split_s(s.drop_last());
        if is_ws(s.last()) {
            r.push(Seq::<char>::empty())
        } else {
            r.update(r.len() - 1, r.last().push(s.last()))
        }
    }
}

/// There is always a piece.
proof fn lemma_ws_split_len(s: Seq<char>)
    ensures
        ws_split_s(s).len() >= 1,
    decreases s.len(),
{
    if s.len() > 0 {
        lemma_ws_split_len(s.drop_last());
    }
}

/// The non-empty pieces, in order.
pub open spec fn nonempty_s(p: Seq<Seq<char>>) -> Seq<Seq<char>>
    decreases p.len(),
{
    if p.len() == 0 {
        Seq::empty()
    } else if p.last().len() == 0 {
        nonempty_s(p.drop_last())
    } else {
        nonempty_s(p.drop_last()).push(p.last())
    }
}

/// `str::split_whitespace`.
pub open spec fn words_s(s: Seq<char>) -> Seq<Seq<char>> {
    nonempty_s(ws_split_s(s))
}

/// `str::split_whitespace`, as character lists.
fn words(s: &Vec<char>) -> (r: Vec<Vec<char>>)
    ensures
        r@.map_values(|w: Vec<char>| w@) == words_s(s@),
{
    let mut done: Vec<Vec<char>> = Vec::new();
    let mut cur: Vec<char> = Vec::new();
    let mut i: usize = 0;
    proof {
        assert(s@.take(0) =~= Seq::<char>::empty());
        assert(ws_split_s(s@.take(0)) =~= seq![Seq::<char>::empty()]);
        assert(done@.map_values(|w: Vec<char>| w@) =~= Seq::<Seq<char>>::empty());
    }
    while i < s.len()
        invariant
            i <= s@.len(),
            ({
                let r = ws_split_s(s@.take(i as int));
                &&& r.len() >= 1
                &&& r.last() == cur@
                &&& done@.map_values(|w: Vec<char>| w@) == nonempty_s(r.drop_last())
            }),
        decreases s@.len() - i,
    {
        let c = s[i];
        let ghost r0 = ws_split_s(s@.take(i as int));
        proof {
            assert(s@.take(i + 1).drop_last() =~= s@.take(i as int));
            assert(s@.take(i + 1).last() == c);
        }
        if is_whitespace(c) {
            if cur.len() > 0 {
                let ghost before = done@;
                done.push(cur);
                proof {
                    assert(done@.map_values(|w: Vec<char>| w@) =~= before.map_values(
                        |w: Vec<char>| w@,
                    ).push(r0.last()));
                    assert(r0.push(Seq::<char>::empty()).drop_last() =~= r0);
                    assert(r0 =~= r0.drop_last().push(r0.last()));
                }
            } else {
                proof {
                    assert(r0.push(Seq::<char>::empty()).drop_last() =~= r0);
                    assert(r0 =~= r0.drop_last().push(r0.last()));
                }
            }
            cur = Vec::new();
            proof {
                assert(cur@ =~= Seq::<char>::empty());
            }
        } else {
            cur.push(c);
            proof {
                let r1 = r0.update(r0.len() - 1, r0.last().push(c));
                assert(r1.drop_last() =~= r0.drop_last());
            }
        }
        i += 1;
    }
    proof {
        assert(s@.take(s@.len() as int) =~= s@);
        let r = ws_split_s(s@);
        assert(r =~= r.drop_last().push(r.last()));
    }
    if cur.len() > 0 {
        let ghost before = done@;
        done.push(cur);
        proof {
            assert(done@.map_values(|w: Vec<char>| w@) =~= before.map_values(|w: Vec<char>| w@).push(
                ws_split_s(s@).last(),
            ));
        }
    }
    done
}

/// The first text between two double quotes. (Only double quotes count:
/// when there is none, single quotes are not tried.)
pub open spec fn quoted_value_s(t: Seq<char>) -> Option<Seq<char>> {
    match find_s(t, seq!['"']) {
        None => None,
        Some(s) => {
            let rest = t.skip(s + 1);
            match find_s(rest, seq!['"']) {
                None => None,
                Some(e) => Some(rest.take(e)),
            }
        },
    }
}

/// `quoted_value`.
pub fn quoted_value(text: &str) -> (r: Option<String>)
    ensures
        match r {
            Some(v) => quoted_value_s(text@) == Some(v@),
            None => quoted_value_s(text@) is None,
        },
{
    let t = chars_of(text);
    let q = vec!['"'];
    proof {
        assert(q@ =~= seq!['"']);
    }
    let start = match find(t.as_slice(), q.as_slice()) {
        Some(i) => i,
        None => {
            return None;
        },
    };
    proof {
        crate::text::lemma_find(t@, q@);
        assert(crate::text::matches_at(t@, q@, start as int));
        assert(q@.len() == 1);
        assert(start + 1 <= t@.len());
        assert(start < t.len());
    }
    let rest = slice_of(t.as_slice(), start + 1, t.len());
    proof {
        assert(rest@ =~= t@.skip(start + 1));
    }
    let end = match find(rest.as_slice(), q.as_slice()) {
        Some(i) => i,
        None => {
            return None;
        },
    };
    proof {
        crate::text::lemma_find(rest@, q@);
    }
    let v = slice_of(rest.as_slice(), 0, end);
    proof {
        assert(v@ =~= rest@.take(end as int));
    }
    Some(string_of(v.as_slice()))
}

/// Whether a lower-cased, left-trimmed prompt asks to turn something off
/// (`Some(false)`) or on (`Some(true)`).
pub open spec fn toggle_enabled_s(command: Seq<char>) -> Option<bool> {
    if starts_with_s(command, "disable "@) || starts_with_s(command, "please disable "@)
        || starts_with_s(command, "关闭"@) || starts_with_s(command, "禁用"@) {
        Some(false)
    } else if starts_with_s(command, "enable "@) || starts_with_s(command, "please enable "@)
        || starts_with_s(command, "开启"@) || starts_with_s(command, "启用"@) {
        Some(true)
    } else {
        None
    }
}

/// The first agent a lower-cased prompt mentions, in the order Codex, Hermes, OpenClaw.
pub open spec fn toggle_agent_s(lower: Seq<char>) -> Option<Seq<char>> {
    if contains_s(lower, "codex"@) {
        Some("codex"@)
    } else if contains_s(lower, "hermes"@) {
        Some("hermes"@)
    } else if contains_s(lower, "openclaw"@) {
        Some("openclaw"@)
    } else {
        None
    }
}

/// The position of the first word that is `mcp` in any ASCII case.
pub open spec fn mcp_word_s(ws: Seq<Seq<char>>) -> Option<int>
    decreases ws.len(),
{
    if ws.len() == 0 {
        None
    } else {
        match mcp_word_s(ws.drop_last()) {
            Some(i) => Some(i),
            None => if lower_s(ws.last()) == "mcp"@ {
                Some(ws.len() - 1)
            } else {
                None
            },
        }
    }
}

/// The server a prompt names: the first double-quoted text, else the second
/// word after the word `mcp`, without junk at its ends.
pub open spec fn server_word_s(prompt: Seq<char>) -> Option<Seq<char>> {
    match quoted_value_s(prompt) {
        Some(v) => Some(v),
        None => {
            let ws = words_s(prompt);
            match mcp_word_s(ws) {
                None => None,
                Some(i) => if i + 2 < ws.len() {
                    Some(trim_junk_s(ws[i + 2]))
                } else {
                    None
                },
            }
        },
    }
}

/// `parse_mcp_toggle`: a prompt that mentions MCP, starts by asking to
/// enable or disable, names an agent and a non-empty server gives
/// `(server, agent, enabled)`.
pub open spec fn parse_mcp_toggle_s(prompt: Seq<char>) -> Option<(Seq<char>, Seq<char>, bool)> {
    let lower = lower_s(prompt);
    if !contains_s(lower, "mcp"@) {
        None
    } else {
        match toggle_enabled_s(trim_start_s(lower)) {
            None => None,
            Some(en) => match toggle_agent_s(lower) {
                None => None,
                Some(agent) => match server_word_s(prompt) {
                    None => None,
                    Some(server) => if server.len() == 0 {
                        None
                    } else {
                        Some((server, agent, en))
                    },
                },
            },
        }
    }
}

/// Whether `s` has `p` as a substring, on characters of a literal.
fn mentions(s: &Vec<char>, p: &str) -> (b: bool)
    ensures
        b == contains_s(s@, p@),
{
    let pc = chars_of(p);
    contains(s.as_slice(), pc.as_slice())
}

/// Whether `s` begins with the literal `p`.
fn begins(s: &Vec<char>, p: &str) -> (b: bool)
    ensures
        b == starts_with_s(s@, p@),
{
    let pc = chars_of(p);
    starts_with(s.as_slice(), pc.as_slice())
}

/// `mcp_word_s`.
fn find_mcp_word(ws: &Vec<Vec<char>>) -> (r: Option<usize>)
    ensures
        match r {
            Some(i) => mcp_word_s(ws@.map_values(|w: Vec<char>| w@)) == Some(i as int) && i < ws@.len(),
            None => mcp_word_s(ws@.map_values(|w: Vec<char>| w@)) is None,
        },
{
    let ghost all = ws@.map_values(|w: Vec<char>| w@);
    let mut i: usize = 0;
    proof {
        assert(all.take(0) =~= Seq::<Seq<char>>::empty());
    }
    while i < ws.len()
        invariant
            i <= ws@.len(),
            all == ws@.map_values(|w: Vec<char>| w@),
            mcp_word_s(all.take(i as int)) is None,
        decreases ws@.len() - i,
    {
        proof {
            assert(all.take(i + 1).drop_last() =~= all.take(i as int));
            assert(all.take(i + 1).last() == ws@[i as int]@);
        }
        let l = lower(ws[i].as_slice());
        if has_exactly(&l, "mcp") {
            proof {
                lemma_mcp_word_prefix(all, i as int + 1);
            }
            return Some(i);
        }
        i += 1;
    }
    proof {
        assert(all.take(i as int) =~= all);
    }
    None
}

/// A first match in a prefix is the first match.
proof fn lemma_mcp_word_prefix(ws: Seq<Seq<char>>, n: int)
    requires
        0 <= n <= ws.len(),
        mcp_word_s(ws.take(n)) is Some,
    ensures
        mcp_word_s(ws) == mcp_word_s(ws.take(n)),
    decreases ws.len() - n,
{
    if n < ws.len() {
        assert(ws.take(n + 1).drop_last() =~= ws.take(n));
        lemma_mcp_word_prefix(ws, n + 1);
    } else {
        assert(ws.take(n) =~= ws);
    }
}

/// Whether `s` holds exactly the literal `p`.
fn has_exactly(s: &Vec<char>, p: &str) -> (b: bool)
    ensures
        b == (s@ == p@),
{
    let pc = chars_of(p);
    crate::text::same(s.as_slice(), pc.as_slice())
}

/// `parse_mcp_toggle`.
pub fn parse_mcp_toggle(prompt: &str) -> (r: Option<ModelAction>)
    ensures
        match parse_mcp_toggle_s(prompt@) {
            None => r is None,
            Some(t) => r matches Some(ModelAction::McpToggle { server, agent, enabled }) && server@
                == t.0 && agent@ == t.1 && enabled == t.2,
        },
{
    let pc = chars_of(prompt);
    let lc = lower(pc.as_slice());
    if !mentions(&lc, "mcp") {
        return None;
    }
    let command = trim_start(lc.as_slice());
    let enabled = if begins(&command, "disable ") || begins(&command, "please disable ") || begins(
        &command,
        "关闭",
    ) || begins(&command, "禁用") {
        false
    } else if begins(&command, "enable ") || begins(&command, "please enable ") || begins(
        &command,
        "开启",
    ) || begins(&command, "启用") {
        true
    } else {
        return None;
    };
    let agent = if mentions(&lc, "codex") {
        "codex"
    } else if mentions(&lc, "hermes") {
        "hermes"
    } else if mentions(&lc, "openclaw") {
        "openclaw"
    } else {
        return None;
    };
    let server = match quoted_value(prompt) {
        Some(v) => v,
        None => {
            let ws = words(&pc);
            match find_mcp_word(&ws) {
                None => {
                    return None;
                },
                Some(i) => {
                    if ws.len() - i > 2 {
                        proof {
                            assert(ws@.map_values(|w: Vec<char>| w@)[i + 2] == ws@[i + 2]@);
                        }
                        let t = trim_junk(&ws[i + 2]);
                        string_of(t.as_slice())
                    } else {
                        return None;
                    }
                },
            }
        },
    };
    if server.as_str().is_empty() {
        return None;
    }
    Some(ModelAction::McpToggle { server, agent: agent.to_owned(), enabled })
}

/// The proposal the Steward makes for a Skill migration request.
pub open spec fn is_migrate_proposal(m: ModelProposal) -> bool {
    &&& m.title@ == "Migrate personal Skills to the shared root"@
    &&& m.summary@
        == "Copy conflict-free personal Skills to ~/.agents/skills and configure Hermes/OpenClaw to load it."@
    &&& m.risk@ == "medium"@
    &&& m.actions@.len() == 1
    &&& m.actions@[0] is SkillsMigrate
}

/// The proposal the Steward makes for an MCP toggle request.
pub open spec fn is_toggle_proposal(m: ModelProposal, t: (Seq<char>, Seq<char>, bool)) -> bool {
    &&& m.title@ == "Change MCP availability"@
    &&& m.summary@ == "Update the secret-free registry and the selected runtime only."@
    &&& m.risk@ == "medium"@
    &&& m.actions@.len() == 1
    &&& m.actions@[0] matches ModelAction::McpToggle { server, agent, enabled } && server@ == t.0
        && agent@ == t.1 && enabled == t.2
}

/// Whether a lower-cased prompt asks to migrate Skills.
pub open spec fn asks_migration(lower: Seq<char>) -> bool {
    contains_s(lower, "skill"@) && (contains_s(lower, "migrate"@) || contains_s(lower, "迁移"@))
}

/// `deterministic_model_proposal`: a Skill migration request or an MCP toggle
/// request becomes a proposal without a model; anything else does not.
pub fn deterministic_model_proposal(prompt: &str) -> (r: Option<ModelProposal>)
    ensures
        asks_migration(lower_s(prompt@)) ==> (r matches Some(m) && is_migrate_proposal(m)),
        !asks_migration(lower_s(prompt@)) ==> match parse_mcp_toggle_s(prompt@) {
            None => r is None,
            Some(t) => r matches Some(m) && is_toggle_proposal(m, t),
        },
{
    let pc = chars_of(prompt);
    let lc = lower(pc.as_slice());
    if mentions(&lc, "skill") && (mentions(&lc, "migrate") || mentions(&lc, "迁移")) {
        return Some(
            ModelProposal {
                title: "Migrate personal Skills to the shared root".to_owned(),
                summary: "Copy conflict-free personal Skills to ~/.agents/skills and configure Hermes/OpenClaw to load it.".to_owned(),
                risk: "medium".to_owned(),
                actions: vec![ModelAction::SkillsMigrate],
            },
        );
    }
    match parse_mcp_toggle(prompt) {
        Some(action) => Some(
            ModelProposal {
                title: "Change MCP availability".to_owned(),
                summary: "Update the secret-free registry and the selected runtime only.".to_owned(),
                risk: "medium".to_owned(),
                actions: vec![action],
            },
        ),
        None => None,
    }
}

/// A toggle read from a prompt goes the way the prompt's opening words
/// (after lower-casing and leading space) say: off exactly when they are
/// `disable `, `please disable `, `关闭` or `禁用`; on only when they are
/// `enable `, `please enable `, `开启` or `启用`.
/// And a prompt that mentions `mcp`, asks to disable or enable, names an
/// agent and a server is always read as such a toggle.
pub proof fn law_toggle_follows_prompt(prompt: Seq<char>)
    ensures
        parse_mcp_toggle_s(prompt) matches Some(t) ==> {
            &&& !t.2 <==> (starts_with_s(trim_start_s(lower_s(prompt)), "disable "@) || starts_with_s(
                trim_start_s(lower_s(prompt)),
                "please disable "@,
            ) || starts_with_s(trim_start_s(lower_s(prompt)), "关闭"@) || starts_with_s(
                trim_start_s(lower_s(prompt)),
                "禁用"@,
            ))
            &&& t.2 ==> (starts_with_s(trim_start_s(lower_s(prompt)), "enable "@) || starts_with_s(
                trim_start_s(lower_s(prompt)),
                "please enable "@,
            ) || starts_with_s(trim_start_s(lower_s(prompt)), "开启"@) || starts_with_s(
                trim_start_s(lower_s(prompt)),
                "启用"@,
            ))
            &&& contains_s(lower_s(prompt), "mcp"@)
            &&& toggle_agent_s(lower_s(prompt)) == Some(t.1)
            &&& (t.1 == "codex"@ || t.1 == "hermes"@ || t.1 == "openclaw"@)
            &&& contains_s(lower_s(prompt), t.1)
            &&& t.0.len() > 0
        },
        contains_s(lower_s(prompt), "mcp"@) && ((starts_with_s(trim_start_s(lower_s(prompt)), "disable "@) || starts_with_s(
                trim_start_s(lower_s(prompt)),
                "please disable "@,
            ) || starts_with_s(trim_start_s(lower_s(prompt)), "关闭"@) || starts_with_s(
                trim_start_s(lower_s(prompt)),
                "禁用"@,
            )) || (starts_with_s(trim_start_s(lower_s(prompt)), "enable "@) || starts_with_s(
                trim_start_s(lower_s(prompt)),
                "please enable "@,
            ) || starts_with_s(trim_start_s(lower_s(prompt)), "开启"@) || starts_with_s(
                trim_start_s(lower_s(prompt)),
                "启用"@,
            ))) && toggle_agent_s(lower_s(prompt)) is Some && (server_word_s(prompt) matches Some(sv)
            && sv.len() > 0) ==> parse_mcp_toggle_s(prompt) is Some,
{
}

} // verus!

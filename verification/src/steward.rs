//! The Brain Steward's rules: which agents, files and config keys it may
//! touch, where each agent's files live, and which memory paths belong to
//! which agent.
use vstd::prelude::*;
use crate::doc::{
    dv, json_to_toml, parent_error, set_json_path, set_path_s, set_toml_path, set_yaml_path, Doc,
    DocV,
};
use crate::error::{HkError, HkErrorV};
use crate::mcp::{is_brain_agent, lemma_agents_distinct};
use crate::paths::{
    split_s, comps, extension, extension_s, is_absolute, join, join_s, parent_is, parent_is_s, path_eq,
    path_starts_with, components,
};
use crate::text::{
    chars_of, debug_str, debug_text, push_str, starts_with_s, str_is, str_starts_with, strs,
};

verus! {

/// The largest memory or persona content, in bytes, that an edit may write.
pub const MAX_MEMORY_EDIT_BYTES: usize = 256 * 1024;

/// `"unknown agent " + agent`.
pub open spec fn unknown_agent(agent: Seq<char>) -> HkErrorV {
    HkErrorV::Validation("unknown agent "@ + agent)
}

/// A validation error `prefix + text`.
fn validation2(prefix: &str, text: &str) -> (e: HkError)
    ensures
        e@ == HkErrorV::Validation(prefix@ + text@),
{
    let mut m = prefix.to_owned();
    push_str(&mut m, text);
    HkError::Validation(m)
}

/// `validate_agent`: only Codex, Hermes and OpenClaw are managed.
pub fn validate_agent(agent: &str) -> (r: Result<(), HkError>)
    ensures
        is_brain_agent(agent@) ==> r is Ok,
        !is_brain_agent(agent@) ==> (r matches Err(e) && e@ == unknown_agent(agent@)),
{
    if str_is(agent, "codex") || str_is(agent, "hermes") || str_is(agent, "openclaw") {
        Ok(())
    } else {
        Err(validation2("unknown agent ", agent))
    }
}

/// Where each agent keeps its main config file, below the home directory.
pub open spec fn config_rel(agent: Seq<char>) -> Seq<char> {
    if agent == "codex"@ {
        ".codex/config.toml"@
    } else if agent == "hermes"@ {
        ".hermes/config.yaml"@
    } else {
        ".openclaw/openclaw.json"@
    }
}

/// `config_path`.
pub fn config_path(home: &str, agent: &str) -> (r: Result<String, HkError>)
    ensures
        is_brain_agent(agent@) ==> (r matches Ok(p) && p@ == join_s(home@, config_rel(agent@))),
        !is_brain_agent(agent@) ==> (r matches Err(e) && e@ == unknown_agent(agent@)),
{
    if str_is(agent, "codex") {
        Ok(join(home, ".codex/config.toml"))
    } else if str_is(agent, "hermes") {
        Ok(join(home, ".hermes/config.yaml"))
    } else if str_is(agent, "openclaw") {
        Ok(join(home, ".openclaw/openclaw.json"))
    } else {
        Err(validation2("unknown agent ", agent))
    }
}

/// The config keys the Steward may set for each agent.
pub open spec fn known_keys_s(agent: Seq<char>) -> Seq<Seq<char>> {
    if agent == "codex"@ {
        seq![
            "model"@,
            "model_reasoning_effort"@,
            "personality"@,
            "sandbox_mode"@,
            "approval_policy"@,
            "features.memories"@,
        ]
    } else if agent == "hermes"@ {
        seq![
            "model"@,
            "provider"@,
            "agent.reasoning_effort"@,
            "agent.max_turns"@,
            "agent.system_prompt"@,
            "display.personality"@,
            "memory.enabled"@,
            "memory.user_profile_enabled"@,
        ]
    } else if agent == "openclaw"@ {
        seq![
            "agents.defaults.model.primary"@,
            "agents.defaults.workspace"@,
            "agents.defaults.heartbeat.every"@,
            "tools.profile"@,
            "browser.enabled"@,
        ]
    } else {
        Seq::empty()
    }
}

/// A list of owned strings with the given texts.
fn owned_list(names: &[&str]) -> (r: Vec<String>)
    ensures
        r@.len() == names@.len(),
        forall|i: int| 0 <= i < names@.len() ==> #[trigger] r@[i]@ == names@[i]@,
{
    let mut r: Vec<String> = Vec::new();
    let mut i: usize = 0;
    while i < names.len()
        invariant
            i <= names@.len(),
            r@.len() == i,
            forall|j: int| 0 <= j < i ==> #[trigger] r@[j]@ == names@[j]@,
        decreases names@.len() - i,
    {
        r.push(names[i].to_owned());
        i += 1;
    }
    r
}

/// `known_config_keys`.
pub fn known_config_keys(agent: &str) -> (r: Vec<String>)
    ensures
        strs(r@) == known_keys_s(agent@),
{
    let r = if str_is(agent, "codex") {
        owned_list(
            &[
                "model",
                "model_reasoning_effort",
                "personality",
                "sandbox_mode",
                "approval_policy",
                "features.memories",
            ],
        )
    } else if str_is(agent, "hermes") {
        owned_list(
            &[
                "model",
                "provider",
                "agent.reasoning_effort",
                "agent.max_turns",
                "agent.system_prompt",
                "display.personality",
                "memory.enabled",
                "memory.user_profile_enabled",
            ],
        )
    } else if str_is(agent, "openclaw") {
        owned_list(
            &[
                "agents.defaults.model.primary",
                "agents.defaults.workspace",
                "agents.defaults.heartbeat.every",
                "tools.profile",
                "browser.enabled",
            ],
        )
    } else {
        Vec::new()
    };
    proof {
        assert(strs(r@) =~= known_keys_s(agent@));
    }
    r
}

/// Whether some string of `v` has the characters `t`.
pub fn list_has(v: &Vec<String>, t: &str) -> (b: bool)
    ensures
        b == strs(v@).contains(t@),
{
    let mut i: usize = 0;
    while i < v.len()
        invariant
            i <= v@.len(),
            forall|j: int| 0 <= j < i ==> #[trigger] v@[j]@ != t@,
        decreases v@.len() - i,
    {
        if str_is(v[i].as_str(), t) {
            proof {
                assert(strs(v@)[i as int] == t@);
            }
            return true;
        }
        i += 1;
    }
    proof {
        if strs(v@).contains(t@) {
            let j = choose|j: int| 0 <= j < strs(v@).len() && strs(v@)[j] == t@;
            assert(v@[j]@ == t@);
        }
    }
    false
}

/// The message for a key that may not be set.
pub open spec fn key_not_editable(agent: Seq<char>, key: Seq<char>) -> HkErrorV {
    HkErrorV::Validation(agent + " config key "@ + debug_text(key) + " is not editable"@)
}

/// The check that `key` is one of `agent`'s editable config keys.
pub fn check_config_key(agent: &str, key: &str) -> (r: Result<(), HkError>)
    ensures
        known_keys_s(agent@).contains(key@) ==> r is Ok,
        !known_keys_s(agent@).contains(key@) ==> (r matches Err(e) && e@ == key_not_editable(
            agent@,
            key@,
        )),
{
    let keys = known_config_keys(agent);
    if list_has(&keys, key) {
        Ok(())
    } else {
        let mut m = agent.to_owned();
        push_str(&mut m, " config key ");
        let d = debug_str(key);
        push_str(&mut m, d.as_str());
        push_str(&mut m, " is not editable");
        Err(HkError::Validation(m))
    }
}

/// `s` without every leading `"~/"`, as `str::trim_start_matches("~/")` leaves it.
pub open spec fn strip_tildes(s: Seq<char>) -> Seq<char>
    decreases s.len(),
{
    if s.len() >= 2 && s[0] == '~' && s[1] == '/' {
        strip_tildes(s.subrange(2, s.len() as int))
    } else {
        s
    }
}

/// The OpenClaw workspace the Steward uses: the configured one when it is
/// `~/...` (below home) or absolute, else `~/.openclaw/workspace`.
pub open spec fn workspace_s(home: Seq<char>, configured: Option<Seq<char>>) -> Seq<char> {
    match configured {
        Some(p) => if starts_with_s(p, "~/"@) {
            join_s(home, strip_tildes(p))
        } else if p.len() > 0 && p[0] == '/' {
            p
        } else {
            join_s(home, ".openclaw/workspace"@)
        },
        None => join_s(home, ".openclaw/workspace"@),
    }
}

/// Whether `p` lies inside the directory `base`, by components.
pub open spec fn inside(p: Seq<char>, base: Seq<char>) -> bool {
    comps(base).is_prefix_of(comps(p))
}

/// `openclaw_workspace`, given the `agents.defaults.workspace` setting read
/// from `~/.openclaw/openclaw.json` (`None` when it is absent, not a string,
/// or the file does not parse). A workspace inside Codex's or Hermes' private
/// directory is refused.
pub fn openclaw_workspace(home: &str, configured: &Option<String>) -> (r: Result<String, HkError>)
    ensures
        text_v(r) == workspace_result(home@, otext(*configured)),
{
    let workspace = match configured {
        Some(p) => {
            if str_starts_with(p.as_str(), "~/") {
                let rest = strip_tilde_prefixes(p.as_str());
                join(home, rest.as_str())
            } else if is_absolute(p.as_str()) {
                p.clone()
            } else {
                join(home, ".openclaw/workspace")
            }
        },
        None => join(home, ".openclaw/workspace"),
    };
    let codex = join(home, ".codex");
    let hermes = join(home, ".hermes");
    if path_starts_with(workspace.as_str(), codex.as_str()) || path_starts_with(
        workspace.as_str(),
        hermes.as_str(),
    ) {
        return Err(
            HkError::Validation(
                "OpenClaw workspace cannot overlap another agent's private directory".to_owned(),
            ),
        );
    }
    Ok(workspace)
}

/// `strip_tildes`.
fn strip_tilde_prefixes(s: &str) -> (r: String)
    ensures
        r@ == strip_tildes(s@),
{
    let c = chars_of(s);
    let mut a: usize = 0;
    proof {
        assert(c@.subrange(0, c@.len() as int) =~= c@);
    }
    while c.len() - a >= 2 && c[a] == '~' && c[a + 1] == '/'
        invariant
            a <= c@.len(),
            strip_tildes(c@) == strip_tildes(c@.subrange(a as int, c@.len() as int)),
        decreases c@.len() - a,
    {
        proof {
            let t = c@.subrange(a as int, c@.len() as int);
            assert(t.subrange(2, t.len() as int) =~= c@.subrange(a + 2, c@.len() as int));
        }
        a += 2;
    }
    let rest = crate::text::slice_of(c.as_slice(), a, c.len());
    crate::text::string_of(rest.as_slice())
}

/// The files each agent's persona may be replaced in.
pub open spec fn persona_files_s(agent: Seq<char>) -> Seq<Seq<char>> {
    if agent == "codex"@ {
        seq!["AGENTS.md"@]
    } else if agent == "hermes"@ {
        seq!["SOUL.md"@]
    } else {
        seq![
            "AGENTS.md"@,
            "SOUL.md"@,
            "IDENTITY.md"@,
            "USER.md"@,
            "TOOLS.md"@,
            "HEARTBEAT.md"@,
            "DREAMS.md"@,
        ]
    }
}

/// The OpenClaw workspace or the refusal of `openclaw_workspace`.
pub open spec fn workspace_result(home: Seq<char>, configured: Option<Seq<char>>) -> Result<
    Seq<char>,
    HkErrorV,
> {
    let w = workspace_s(home, configured);
    if inside(w, join_s(home, ".codex"@)) || inside(w, join_s(home, ".hermes"@)) {
        Err(HkErrorV::Validation("OpenClaw workspace cannot overlap another agent's private directory"@))
    } else {
        Ok(w)
    }
}

/// The characters of an optional string.
pub open spec fn otext(o: Option<String>) -> Option<Seq<char>> {
    match o {
        Some(s) => Some(s@),
        None => None,
    }
}

/// Where `persona_path` puts an allowed persona file of a managed agent.
pub open spec fn persona_result(home: Seq<char>, agent: Seq<char>, file: Seq<char>, configured: Option<Seq<char>>) -> Result<
    Seq<char>,
    HkErrorV,
> {
    if !is_brain_agent(agent) {
        Err(unknown_agent(agent))
    } else if !persona_files_s(agent).contains(file) {
        Err(HkErrorV::Validation(debug_text(file) + " is not an editable "@ + agent + " persona file"@))
    } else if agent == "codex"@ {
        Ok(join_s(join_s(home, ".codex"@), file))
    } else if agent == "hermes"@ {
        Ok(join_s(join_s(home, ".hermes"@), file))
    } else {
        match workspace_result(home, configured) {
            Ok(w) => Ok(join_s(w, file)),
            Err(e) => Err(e),
        }
    }
}

/// The view of a result that carries a string.
pub open spec fn text_v(r: Result<String, HkError>) -> Result<Seq<char>, HkErrorV> {
    match r {
        Ok(s) => Ok(s@),
        Err(e) => Err(e@),
    }
}

/// `persona_path`, given the OpenClaw workspace setting (see
/// `openclaw_workspace`): the file must be one of the agent's persona files;
/// Codex's and Hermes' live in their own directories, OpenClaw's in its
/// workspace.
pub fn persona_path(home: &str, agent: &str, file: &str, configured: &Option<String>) -> (r: Result<
    String,
    HkError,
>)
    ensures
        text_v(r) == persona_result(home@, agent@, file@, otext(*configured)),
{
    let allowed: Vec<String> = if str_is(agent, "codex") {
        owned_list(&["AGENTS.md"])
    } else if str_is(agent, "hermes") {
        owned_list(&["SOUL.md"])
    } else if str_is(agent, "openclaw") {
        owned_list(
            &[
                "AGENTS.md",
                "SOUL.md",
                "IDENTITY.md",
                "USER.md",
                "TOOLS.md",
                "HEARTBEAT.md",
                "DREAMS.md",
            ],
        )
    } else {
        return Err(validation2("unknown agent ", agent));
    };
    proof {
        assert(strs(allowed@) =~= persona_files_s(agent@));
    }
    if !list_has(&allowed, file) {
        let mut m = debug_str(file);
        push_str(&mut m, " is not an editable ");
        push_str(&mut m, agent);
        push_str(&mut m, " persona file");
        return Err(HkError::Validation(m));
    }
    if str_is(agent, "codex") {
        let dir = join(home, ".codex");
        Ok(join(dir.as_str(), file))
    } else if str_is(agent, "hermes") {
        let dir = join(home, ".hermes");
        Ok(join(dir.as_str(), file))
    } else {
        let w = openclaw_workspace(home, configured)?;
        Ok(join(w.as_str(), file))
    }
}

/// A memory edit's target and the directory from which its path is checked
/// for symbolic links.
pub struct MemoryTarget {
    pub path: String,
    pub anchor: String,
}

/// The path has no `.` or `..` component.
pub open spec fn no_steps(p: Seq<char>) -> bool {
    !comps(p).contains("."@) && !comps(p).contains(".."@)
}

/// Where each agent keeps its memory: the directory, the single file beside
/// it (OpenClaw's `MEMORY.md`), whether files below subdirectories count,
/// and whether only Markdown files do.
pub open spec fn memory_layout(home: Seq<char>, agent: Seq<char>, w: Seq<char>) -> (Seq<char>, Option<Seq<char>>, bool, bool) {
    if agent == "codex"@ {
        (join_s(home, ".codex/memories"@), None, false, true)
    } else if agent == "hermes"@ {
        (join_s(home, ".hermes/memories"@), None, false, false)
    } else {
        (join_s(w, "memory"@), Some(join_s(w, "MEMORY.md"@)), true, true)
    }
}

/// The checks of `memory_path` that need no file system: the agent is
/// managed, the path is absolute without `.` or `..`, it lies in the agent's
/// memory directory (directly, or at any depth for OpenClaw) or is
/// OpenClaw's `MEMORY.md`, and it is Markdown where the agent requires it.
/// The anchor is the memory directory, or the workspace for `MEMORY.md`.
pub open spec fn memory_target_s(
    home: Seq<char>,
    agent: Seq<char>,
    req: Seq<char>,
    configured: Option<Seq<char>>,
) -> Result<(Seq<char>, Seq<char>), HkErrorV> {
    if !is_brain_agent(agent) {
        Err(unknown_agent(agent))
    } else if !(req.len() > 0 && req[0] == '/' && no_steps(req)) {
        Err(HkErrorV::Validation("memory path must be an absolute path without traversal"@))
    } else {
        let ws = if agent == "openclaw"@ {
            workspace_result(home, configured)
        } else {
            Ok(Seq::<char>::empty())
        };
        match ws {
            Err(e) => Err(e),
            Ok(w) => {
                let (root, standalone, recursive, markdown) = memory_layout(home, agent, w);
                let in_root = if recursive {
                    inside(req, root) && comps(req) != comps(root)
                } else {
                    parent_is_s(req, root)
                };
                let alone = standalone matches Some(s) && comps(s) == comps(req);
                if !in_root && !alone {
                    Err(HkErrorV::Validation("memory path does not belong to "@ + agent))
                } else if markdown && extension_s(req) != Some("md"@) {
                    Err(HkErrorV::Validation(agent + " memory target must be a Markdown file"@))
                } else {
                    Ok((
                        req,
                        if alone {
                            w
                        } else {
                            root
                        },
                    ))
                }
            },
        }
    }
}

/// The view of a memory target result.
pub open spec fn target_v(r: Result<MemoryTarget, HkError>) -> Result<(Seq<char>, Seq<char>), HkErrorV> {
    match r {
        Ok(t) => Ok((t.path@, t.anchor@)),
        Err(e) => Err(e@),
    }
}

/// The file-system-free part of `memory_path`.
pub fn memory_target(home: &str, agent: &str, requested: &str, configured: &Option<String>) -> (r:
    Result<MemoryTarget, HkError>)
    ensures
        target_v(r) == memory_target_s(home@, agent@, requested@, otext(*configured)),
{
    proof {
        lemma_agents_distinct();
    }
    validate_agent(agent)?;
    let parts = components(requested);
    if !is_absolute(requested) || list_has(&parts, ".") || list_has(&parts, "..") {
        return Err(
            HkError::Validation("memory path must be an absolute path without traversal".to_owned()),
        );
    }
    let codex = str_is(agent, "codex");
    let hermes = str_is(agent, "hermes");
    let w: String = if codex || hermes {
        String::new()
    } else {
        openclaw_workspace(home, configured)?
    };
    let root = if codex {
        join(home, ".codex/memories")
    } else if hermes {
        join(home, ".hermes/memories")
    } else {
        join(w.as_str(), "memory")
    };
    let in_root = if codex || hermes {
        parent_is(requested, root.as_str())
    } else {
        path_starts_with(requested, root.as_str()) && !path_eq(requested, root.as_str())
    };
    let alone = if codex || hermes {
        false
    } else {
        let standalone = join(w.as_str(), "MEMORY.md");
        path_eq(standalone.as_str(), requested)
    };
    if !in_root && !alone {
        return Err(validation2("memory path does not belong to ", agent));
    }
    if !hermes {
        let md = match extension(requested) {
            Some(e) => str_is(e.as_str(), "md"),
            None => false,
        };
        if !md {
            let mut m = agent.to_owned();
            push_str(&mut m, " memory target must be a Markdown file");
            return Err(HkError::Validation(m));
        }
    }
    Ok(MemoryTarget { path: requested.to_owned(), anchor: if alone { w } else { root } })
}

/// What looking at one path on disk found.
pub enum Probe {
    /// Nothing is there.
    Missing,
    /// A symbolic link.
    Symlink,
    /// A directory.
    Directory,
    /// Something else, such as a file.
    Other,
    /// The look failed, for the reason given.
    Failed(String),
}

/// The paths from `anchor` down to the target, one component at a time.
pub open spec fn probes_s(anchor: Seq<char>, rest: Seq<Seq<char>>) -> Seq<Seq<char>>
    decreases rest.len(),
{
    if rest.len() == 0 {
        seq![anchor]
    } else {
        let before = probes_s(anchor, rest.drop_last());
        before.push(join_s(before.last(), rest.last()))
    }
}

/// There is one probe more than there are components.
pub proof fn lemma_probes_len(anchor: Seq<char>, rest: Seq<Seq<char>>)
    ensures
        probes_s(anchor, rest).len() == rest.len() + 1,
    decreases rest.len(),
{
    if rest.len() > 0 {
        lemma_probes_len(anchor, rest.drop_last());
    }
}

/// The paths that `reject_symlink_components` looks at: the anchor, then
/// each step down to the target. Refused when the target is not below the
/// anchor.
pub fn symlink_probes(anchor: &str, target: &str) -> (r: Result<Vec<String>, HkError>)
    ensures
        inside(target@, anchor@) ==> (r matches Ok(v) && strs(v@) == probes_s(
            anchor@,
            comps(target@).skip(comps(anchor@).len() as int),
        )),
        !inside(target@, anchor@) ==> (r matches Err(e) && e@ == HkErrorV::Validation(
            "memory path is outside its memory root"@,
        )),
{
    if !path_starts_with(target, anchor) {
        return Err(HkError::Validation("memory path is outside its memory root".to_owned()));
    }
    let tc = components(target);
    let ac = components(anchor);
    let ghost rest = comps(target@).skip(comps(anchor@).len() as int);
    let mut out: Vec<String> = Vec::new();
    out.push(anchor.to_owned());
    let mut i: usize = ac.len();
    proof {
        assert(strs(tc@).skip(i as int).take(0) =~= Seq::<Seq<char>>::empty());
        assert(strs(out@) =~= seq![anchor@]);
    }
    while i < tc.len()
        invariant
            ac@.len() <= i <= tc@.len(),
            strs(tc@) == comps(target@),
            strs(ac@) == comps(anchor@),
            rest == strs(tc@).skip(ac@.len() as int),
            strs(out@) == probes_s(anchor@, rest.take(i - ac@.len())),
            out@.len() >= 1,
        decreases tc@.len() - i,
    {
        proof {
            lemma_probes_len(anchor@, rest.take(i - ac@.len()));
            assert(rest.take(i + 1 - ac@.len()).drop_last() =~= rest.take(i - ac@.len()));
            assert(rest.take(i + 1 - ac@.len()).last() == tc@[i as int]@);
        }
        let last = out[out.len() - 1].clone();
        let next = join(last.as_str(), tc[i].as_str());
        let ghost before = out@;
        out.push(next);
        proof {
            assert(strs(out@) =~= strs(before).push(next@));
        }
        i += 1;
    }
    proof {
        assert(rest.take(i - ac@.len()) =~= rest);
    }
    Ok(out)
}

/// The verdict of `reject_symlink_components` on what was found at each
/// probe: the anchor must not be a symbolic link; below it, no step may be
/// one, and every step before the target that exists must be a directory.
pub open spec fn judge_s(probes: Seq<Seq<char>>, kinds: Seq<Probe>, target: Seq<char>) -> Result<(), HkErrorV>
    decreases probes.len(),
{
    if probes.len() <= 1 {
        if kinds.len() > 0 && kinds[0] is Symlink {
            Err(HkErrorV::Validation("memory root is a symlink: "@ + probes[0]))
        } else {
            Ok(())
        }
    } else {
        match judge_s(probes.drop_last(), kinds.drop_last(), target) {
            Err(e) => Err(e),
            Ok(()) => {
                let p = probes.last();
                match kinds.last() {
                    Probe::Symlink => Err(HkErrorV::Validation("memory path crosses symlink "@ + p)),
                    Probe::Other => if comps(p) != comps(target) {
                        Err(HkErrorV::Validation("memory path parent is not a directory: "@ + p))
                    } else {
                        Ok(())
                    },
                    Probe::Failed(m) => Err(HkErrorV::Internal(m@)),
                    _ => Ok(()),
                }
            },
        }
    }
}

/// The view of a result without a value.
pub open spec fn unit_v(r: Result<(), HkError>) -> Result<(), HkErrorV> {
    match r {
        Ok(()) => Ok(()),
        Err(e) => Err(e@),
    }
}

/// `judge_s`.
pub fn judge_probes(probes: &Vec<String>, kinds: &Vec<Probe>, target: &str) -> (r: Result<(), HkError>)
    requires
        probes@.len() == kinds@.len(),
        probes@.len() >= 1,
    ensures
        unit_v(r) == judge_s(strs(probes@), kinds@, target@),
{
    if let Probe::Symlink = kinds[0] {
        proof {
            lemma_judge_first(strs(probes@), kinds@, target@);
        }
        let mut m = "memory root is a symlink: ".to_owned();
        push_str(&mut m, probes[0].as_str());
        return Err(HkError::Validation(m));
    }
    let mut i: usize = 1;
    proof {
        assert(strs(probes@).take(1).len() == 1);
        assert(kinds@.take(1)[0] == kinds@[0]);
        assert(strs(probes@).take(1)[0] == probes@[0]@);
    }
    while i < probes.len()
        invariant
            1 <= i <= probes@.len(),
            probes@.len() == kinds@.len(),
            judge_s(strs(probes@).take(i as int), kinds@.take(i as int), target@) is Ok,
        decreases probes@.len() - i,
    {
        proof {
            assert(strs(probes@).take(i + 1).drop_last() =~= strs(probes@).take(i as int));
            assert(kinds@.take(i + 1).drop_last() =~= kinds@.take(i as int));
            assert(strs(probes@).take(i + 1).last() == probes@[i as int]@);
            assert(kinds@.take(i + 1).last() == kinds@[i as int]);
        }
        match &kinds[i] {
            Probe::Symlink => {
                proof {
                    lemma_judge_prefix(strs(probes@), kinds@, target@, i as int + 1);
                }
                let mut m = "memory path crosses symlink ".to_owned();
                push_str(&mut m, probes[i].as_str());
                return Err(HkError::Validation(m));
            },
            Probe::Other => {
                if !path_eq(probes[i].as_str(), target) {
                    proof {
                        lemma_judge_prefix(strs(probes@), kinds@, target@, i as int + 1);
                    }
                    let mut m = "memory path parent is not a directory: ".to_owned();
                    push_str(&mut m, probes[i].as_str());
                    return Err(HkError::Validation(m));
                }
            },
            Probe::Failed(msg) => {
                proof {
                    lemma_judge_prefix(strs(probes@), kinds@, target@, i as int + 1);
                }
                return Err(HkError::Internal(msg.clone()));
            },
            _ => {},
        }
        i += 1;
    }
    proof {
        assert(strs(probes@).take(i as int) =~= strs(probes@));
        assert(kinds@.take(i as int) =~= kinds@);
    }
    Ok(())
}

/// A verdict on the first probe alone holds for all of them.
proof fn lemma_judge_first(probes: Seq<Seq<char>>, kinds: Seq<Probe>, target: Seq<char>)
    requires
        probes.len() == kinds.len(),
        probes.len() >= 1,
        kinds[0] is Symlink,
    ensures
        judge_s(probes, kinds, target) == Err::<(), HkErrorV>(
            HkErrorV::Validation("memory root is a symlink: "@ + probes[0]),
        ),
    decreases probes.len(),
{
    if probes.len() > 1 {
        lemma_judge_first(probes.drop_last(), kinds.drop_last(), target);
    }
}

/// An error found on a prefix of the probes is the verdict on all of them.
proof fn lemma_judge_prefix(probes: Seq<Seq<char>>, kinds: Seq<Probe>, target: Seq<char>, n: int)
    requires
        probes.len() == kinds.len(),
        1 <= n <= probes.len(),
        judge_s(probes.take(n), kinds.take(n), target) is Err,
    ensures
        judge_s(probes, kinds, target) == judge_s(probes.take(n), kinds.take(n), target),
    decreases probes.len() - n,
{
    if n < probes.len() {
        assert(probes.take(n + 1).drop_last() =~= probes.take(n));
        assert(kinds.take(n + 1).drop_last() =~= kinds.take(n));
        lemma_judge_prefix(probes, kinds, target, n + 1);
    } else {
        assert(probes.take(n) =~= probes);
        assert(kinds.take(n) =~= kinds);
    }
}

/// The last check of `memory_path`: a target that exists must be one of the
/// agent's discovered memory files.
pub fn check_discovered(agent: &str, present: bool, discovered: &Vec<String>, target: &str) -> (r: Result<
    (),
    HkError,
>)
    ensures
        (r is Ok) == (!present || exists|i: int|
            0 <= i < discovered@.len() && comps(#[trigger] discovered@[i]@) == comps(target@)),
        r matches Err(e) ==> e@ == HkErrorV::Validation("memory path is not discovered for "@ + agent@),
{
    if !present {
        return Ok(());
    }
    let mut i: usize = 0;
    while i < discovered.len()
        invariant
            i <= discovered@.len(),
            forall|j: int| 0 <= j < i ==> comps(#[trigger] discovered@[j]@) != comps(target@),
        decreases discovered@.len() - i,
    {
        if path_eq(discovered[i].as_str(), target) {
            return Ok(());
        }
        i += 1;
    }
    Err(validation2("memory path is not discovered for ", agent))
}

/// The document `apply_config_set` writes: `value` set at the dotted `key`
/// of `agent`'s parsed config, creating tables on the way. Codex's TOML
/// takes only strings, booleans and integers.
pub open spec fn config_update_s(agent: Seq<char>, key: Seq<char>, value: DocV, doc: DocV) -> Result<
    DocV,
    HkErrorV,
> {
    let parts = split_s(key, '.');
    if !known_keys_s(agent).contains(key) {
        Err(key_not_editable(agent, key))
    } else if agent == "codex"@ {
        match value {
            DocV::Str(_) | DocV::Bool(_) | DocV::Int(_) => match set_path_s(doc, parts, value) {
                Ok(x) => Ok(x),
                Err(j) => Err(HkErrorV::ConfigCorrupted(parts[j - 1] + " is not a table"@)),
            },
            _ => Err(
                HkErrorV::Validation(
                    "Codex known config values must be strings, booleans, or integers"@,
                ),
            ),
        }
    } else if agent == "hermes"@ {
        match set_path_s(doc, parts, value) {
            Ok(x) => Ok(x),
            Err(j) => Err(parent_error(parts, j, "a mapping"@)),
        }
    } else {
        match set_path_s(doc, parts, value) {
            Ok(x) => Ok(x),
            Err(j) => Err(parent_error(parts, j, "an object"@)),
        }
    }
}

/// `apply_config_set` after the file is read: `doc` is the agent's config
/// as parsed (an empty table where the file is missing or, for Codex, does
/// not parse); the result is the document to write back.
pub fn config_update(agent: &str, key: &str, value: &Doc, doc: Doc) -> (r: Result<Doc, HkError>)
    requires
        agent@ == "codex"@ ==> dv(doc) is Table,
    ensures
        match config_update_s(agent@, key@, dv(*value), dv(doc)) {
            Ok(x) => r matches Ok(d) && dv(d) == x,
            Err(e) => r matches Err(x) && x@ == e,
        },
{
    check_config_key(agent, key)?;
    if str_is(agent, "codex") {
        let v = json_to_toml(value)?;
        set_toml_path(doc, key, v)
    } else if str_is(agent, "hermes") {
        set_yaml_path(doc, key, value.dup())
    } else {
        set_json_path(doc, key, value.dup())
    }
}

/// The names the memory layout joins are plain component names.
proof fn lemma_memory_names()
    ensures
        crate::paths::plain_name(".codex"@),
        crate::paths::plain_name(".hermes"@),
        crate::paths::plain_name("memories"@),
        crate::paths::plain_name("memory"@),
        crate::paths::plain_name("MEMORY.md"@),
        ".codex/memories"@ == ".codex"@ + seq!['/'] + "memories"@,
        ".hermes/memories"@ == ".hermes"@ + seq!['/'] + "memories"@,
        ".codex"@ != ".hermes"@,
        ".codex"@ != "memory"@,
        ".hermes"@ != "memory"@,
{
    reveal_strlit(".codex");
    reveal_strlit(".hermes");
    reveal_strlit("memories");
    reveal_strlit("memory");
    reveal_strlit("MEMORY.md");
    reveal_strlit(".codex/memories");
    reveal_strlit(".hermes/memories");
    assert(".codex/memories"@ =~= ".codex"@ + seq!['/'] + "memories"@);
    assert(".hermes/memories"@ =~= ".hermes"@ + seq!['/'] + "memories"@);
    assert(".codex"@[0] == '.' && ".codex"@[1] == 'c');
    assert("memory"@[0] == 'm');
    assert(".hermes"@.len() == 7);
}

/// The components of an agent's memory directory, and of the private
/// directory above it.
proof fn lemma_memory_roots(home: Seq<char>)
    ensures
        comps(join_s(home, ".codex/memories"@)) == comps(home) + seq![".codex"@, "memories"@],
        comps(join_s(home, ".hermes/memories"@)) == comps(home) + seq![".hermes"@, "memories"@],
        comps(join_s(home, ".codex"@)) == comps(home).push(".codex"@),
        comps(join_s(home, ".hermes"@)) == comps(home).push(".hermes"@),
{
    lemma_memory_names();
    crate::paths::lemma_comps_join_two(home, ".codex"@, "memories"@);
    crate::paths::lemma_comps_join_two(home, ".hermes"@, "memories"@);
    crate::paths::lemma_comps_join_name(home, ".codex"@);
    crate::paths::lemma_comps_join_name(home, ".hermes"@);
}

/// Codex and Hermes never share a memory file: no path is accepted as a
/// memory target of both.
pub proof fn law_codex_hermes_memory_apart(
    home: Seq<char>,
    req: Seq<char>,
    configured: Option<Seq<char>>,
)
    ensures
        !(memory_target_s(home, "codex"@, req, configured) is Ok && memory_target_s(
            home,
            "hermes"@,
            req,
            configured,
        ) is Ok),
{
    lemma_agents_distinct();
    lemma_memory_names();
    lemma_memory_roots(home);
    if memory_target_s(home, "codex"@, req, configured) is Ok && memory_target_s(
        home,
        "hermes"@,
        req,
        configured,
    ) is Ok {
        let h = comps(home);
        let c = comps(req);
        assert(parent_is_s(req, join_s(home, ".codex/memories"@)));
        assert(parent_is_s(req, join_s(home, ".hermes/memories"@)));
        assert(c.drop_last() == h + seq![".codex"@, "memories"@]);
        assert(c.drop_last() == h + seq![".hermes"@, "memories"@]);
        assert((h + seq![".codex"@, "memories"@])[h.len() as int] == ".codex"@);
        assert((h + seq![".hermes"@, "memories"@])[h.len() as int] == ".hermes"@);
    }
}

/// OpenClaw's memory is its own too: a path accepted as OpenClaw memory is
/// never accepted as Codex's or Hermes' memory, as long as the home
/// directory itself does not lie inside OpenClaw's memory directory.
pub proof fn law_openclaw_memory_apart(
    home: Seq<char>,
    req: Seq<char>,
    configured: Option<Seq<char>>,
    other: Seq<char>,
)
    requires
        other == "codex"@ || other == "hermes"@,
        !inside(home, join_s(workspace_s(home, configured), "memory"@)),
    ensures
        !(memory_target_s(home, "openclaw"@, req, configured) is Ok && memory_target_s(
            home,
            other,
            req,
            configured,
        ) is Ok),
{
    lemma_agents_distinct();
    lemma_memory_names();
    lemma_memory_roots(home);
    if memory_target_s(home, "openclaw"@, req, configured) is Ok && memory_target_s(
        home,
        other,
        req,
        configured,
    ) is Ok {
        let d = if other == "codex"@ {
            ".codex"@
        } else {
            ".hermes"@
        };
        let h = comps(home);
        let c = comps(req);
        let w = workspace_s(home, configured);
        let wc = comps(w);
        let mine = h + seq![d, "memories"@];
        assert(parent_is_s(req, join_s(home, d + seq!['/'] + "memories"@)));
        assert(c.drop_last() == mine);
        assert(c.len() == h.len() + 3);
        assert forall|i: int| 0 <= i < h.len() implies c[i] == h[i] by {
            assert(c.drop_last()[i] == c[i]);
            assert(mine[i] == h[i]);
        }
        assert(c[h.len() as int] == d) by {
            assert(c.drop_last()[h.len() as int] == c[h.len() as int]);
        }
        assert(workspace_result(home, configured) == Ok::<Seq<char>, HkErrorV>(w));
        assert(!inside(w, join_s(home, d)));
        crate::paths::lemma_comps_join_name(w, "memory"@);
        crate::paths::lemma_comps_join_name(w, "MEMORY.md"@);
        let pm = wc.push("memory"@);
        let alone = comps(join_s(w, "MEMORY.md"@)) == c;
        if alone {
            assert(wc.push("MEMORY.md"@) == c);
            assert(wc == c.drop_last()) by {
                assert(c.drop_last() =~= wc.push("MEMORY.md"@).drop_last());
            }
            assert(h.push(d).is_prefix_of(wc)) by {
                assert(h.push(d) =~= wc.subrange(0, h.len() as int + 1));
            }
        } else {
            assert(inside(req, join_s(w, "memory"@)) && c != pm);
            assert(pm.is_prefix_of(c));
            assert(pm.len() < c.len()) by {
                if pm.len() == c.len() {
                    assert(pm =~= c.subrange(0, c.len() as int));
                    assert(pm =~= c);
                }
            }
            assert forall|i: int| 0 <= i < pm.len() implies pm[i] == c[i] by {
                assert(c.subrange(0, pm.len() as int)[i] == c[i]);
            }
            if wc.len() > h.len() {
                assert(wc.len() == h.len() + 1);
                assert(h.push(d).is_prefix_of(wc)) by {
                    assert forall|i: int| 0 <= i < h.len() + 1 implies h.push(d)[i] == wc[i] by {
                        assert(pm[i] == wc[i]);
                    }
                    assert(h.push(d) =~= wc.subrange(0, h.len() as int + 1));
                }
            } else if wc.len() == h.len() {
                assert(pm[h.len() as int] == "memory"@);
            } else {
                assert(pm.is_prefix_of(h)) by {
                    assert forall|i: int| 0 <= i < pm.len() implies pm[i] == h[i] by {}
                    assert(pm =~= h.subrange(0, pm.len() as int));
                }
            }
        }
    }
}

/// Each agent's editable config keys are exactly these: Codex's `model`,
/// `model_reasoning_effort`, `personality`, `sandbox_mode`,
/// `approval_policy` and `features.memories`; Hermes's `model`,
/// `provider`, `agent.reasoning_effort`, `agent.max_turns`,
/// `agent.system_prompt`, `display.personality`, `memory.enabled` and
/// `memory.user_profile_enabled`; OpenClaw's
/// `agents.defaults.model.primary`, `agents.defaults.workspace`,
/// `agents.defaults.heartbeat.every`, `tools.profile` and
/// `browser.enabled`; no key of any other agent. `check_config_key` accepts
/// exactly these.
pub proof fn law_editable_config_keys(agent: Seq<char>, key: Seq<char>)
    ensures
        agent == "codex"@ ==> (known_keys_s(agent).contains(key) <==> (key == "model"@ || key == "model_reasoning_effort"@ || key == "personality"@ || key == "sandbox_mode"@ || key == "approval_policy"@ || key == "features.memories"@)),
        agent == "hermes"@ ==> (known_keys_s(agent).contains(key) <==> (key == "model"@ || key == "provider"@ || key == "agent.reasoning_effort"@ || key == "agent.max_turns"@ || key == "agent.system_prompt"@ || key == "display.personality"@ || key == "memory.enabled"@ || key == "memory.user_profile_enabled"@)),
        agent == "openclaw"@ ==> (known_keys_s(agent).contains(key) <==> (key == "agents.defaults.model.primary"@ || key == "agents.defaults.workspace"@ || key == "agents.defaults.heartbeat.every"@ || key == "tools.profile"@ || key == "browser.enabled"@)),
        !(agent == "codex"@ || agent == "hermes"@ || agent == "openclaw"@) ==> !known_keys_s(agent).contains(
            key,
        ),
{
    reveal_strlit("codex");
    reveal_strlit("hermes");
    reveal_strlit("openclaw");
    assert("codex"@.len() == 5 && "hermes"@.len() == 6 && "openclaw"@.len() == 8);
    assert("codex"@ != "hermes"@ && "codex"@ != "openclaw"@ && "hermes"@ != "openclaw"@);
    if agent == "codex"@ {
        let ks = known_keys_s(agent);
        assert(ks[0] == "model"@);
        assert(ks[1] == "model_reasoning_effort"@);
        assert(ks[2] == "personality"@);
        assert(ks[3] == "sandbox_mode"@);
        assert(ks[4] == "approval_policy"@);
        assert(ks[5] == "features.memories"@);
        assert(ks.len() == 6);
        if ks.contains(key) {
            let i = choose|i: int| 0 <= i < ks.len() && ks[i] == key;
            assert(i == 0 || i == 1 || i == 2 || i == 3 || i == 4 || i == 5);
        }
        if key == "model"@ {
            assert(ks[0] == key);
        }
        if key == "model_reasoning_effort"@ {
            assert(ks[1] == key);
        }
        if key == "personality"@ {
            assert(ks[2] == key);
        }
        if key == "sandbox_mode"@ {
            assert(ks[3] == key);
        }
        if key == "approval_policy"@ {
            assert(ks[4] == key);
        }
        if key == "features.memories"@ {
            assert(ks[5] == key);
        }
    }
    if agent == "hermes"@ {
        let ks = known_keys_s(agent);
        assert(ks[0] == "model"@);
        assert(ks[1] == "provider"@);
        assert(ks[2] == "agent.reasoning_effort"@);
        assert(ks[3] == "agent.max_turns"@);
        assert(ks[4] == "agent.system_prompt"@);
        assert(ks[5] == "display.personality"@);
        assert(ks[6] == "memory.enabled"@);
        assert(ks[7] == "memory.user_profile_enabled"@);
        assert(ks.len() == 8);
        if ks.contains(key) {
            let i = choose|i: int| 0 <= i < ks.len() && ks[i] == key;
            assert(i == 0 || i == 1 || i == 2 || i == 3 || i == 4 || i == 5 || i == 6 || i == 7);
        }
        if key == "model"@ {
            assert(ks[0] == key);
        }
        if key == "provider"@ {
            assert(ks[1] == key);
        }
        if key == "agent.reasoning_effort"@ {
            assert(ks[2] == key);
        }
        if key == "agent.max_turns"@ {
            assert(ks[3] == key);
        }
        if key == "agent.system_prompt"@ {
            assert(ks[4] == key);
        }
        if key == "display.personality"@ {
            assert(ks[5] == key);
        }
        if key == "memory.enabled"@ {
            assert(ks[6] == key);
        }
        if key == "memory.user_profile_enabled"@ {
            assert(ks[7] == key);
        }
    }
    if agent == "openclaw"@ {
        let ks = known_keys_s(agent);
        assert(ks[0] == "agents.defaults.model.primary"@);
        assert(ks[1] == "agents.defaults.workspace"@);
        assert(ks[2] == "agents.defaults.heartbeat.every"@);
        assert(ks[3] == "tools.profile"@);
        assert(ks[4] == "browser.enabled"@);
        assert(ks.len() == 5);
        if ks.contains(key) {
            let i = choose|i: int| 0 <= i < ks.len() && ks[i] == key;
            assert(i == 0 || i == 1 || i == 2 || i == 3 || i == 4);
        }
        if key == "agents.defaults.model.primary"@ {
            assert(ks[0] == key);
        }
        if key == "agents.defaults.workspace"@ {
            assert(ks[1] == key);
        }
        if key == "agents.defaults.heartbeat.every"@ {
            assert(ks[2] == key);
        }
        if key == "tools.profile"@ {
            assert(ks[3] == key);
        }
        if key == "browser.enabled"@ {
            assert(ks[4] == key);
        }
    }
}

} // verus!

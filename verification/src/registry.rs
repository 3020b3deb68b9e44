//! The secret-free MCP registry: servers, per-agent enablement and overrides,
//! their validation and the plan of servers an agent gets.
use vstd::prelude::*;
use crate::smap::{get_s, insert_s, keys_increasing, lemma_insert_last, StrMap};
use crate::text::{
    dup_opt, dup_strs, ostr, strs,
    chars_of, debug_str, debug_text, dec, dec_s, is_blank, lt_s, push_str, trim_s,
};

verus! {

/// The only registry version this library reads.
pub const REGISTRY_VERSION: u32 = 1;

/// Characters of an optional list of strings.
pub open spec fn ostrs(o: Option<Vec<String>>) -> Option<Seq<Seq<char>>> {
    match o {
        Some(v) => Some(strs(v@)),
        None => None,
    }
}

/// Key and value characters of each entry, in key order.
pub open spec fn pairs(s: Seq<(String, String)>) -> Seq<(Seq<char>, Seq<char>)> {
    s.map_values(|e: (String, String)| (e.0@, e.1@))
}

/// Key characters and value of each entry, in key order.
pub open spec fn flags(s: Seq<(String, bool)>) -> Seq<(Seq<char>, bool)> {
    s.map_values(|e: (String, bool)| (e.0@, e.1))
}

/// One server of the registry. Secrets appear only as `${ENV_NAME}` references.
pub struct McpServer {
    pub enabled_by_default: bool,
    pub command: Option<String>,
    pub args: Vec<String>,
    pub cwd: Option<String>,
    pub url: Option<String>,
    pub transport: Option<String>,
    pub env_keys: Vec<String>,
    pub env_secret_refs: StrMap<String>,
    pub header_secret_refs: StrMap<String>,
    pub tool_allow: Vec<String>,
}

/// The value a server stands for.
pub struct McpServerV {
    pub enabled_by_default: bool,
    pub command: Option<Seq<char>>,
    pub args: Seq<Seq<char>>,
    pub cwd: Option<Seq<char>>,
    pub url: Option<Seq<char>>,
    pub transport: Option<Seq<char>>,
    pub env_keys: Seq<Seq<char>>,
    pub env_secret_refs: Seq<(Seq<char>, Seq<char>)>,
    pub header_secret_refs: Seq<(Seq<char>, Seq<char>)>,
    pub tool_allow: Seq<Seq<char>>,
}

impl View for McpServer {
    type V = McpServerV;

    open spec fn view(&self) -> McpServerV {
        McpServerV {
            enabled_by_default: self.enabled_by_default,
            command: ostr(self.command),
            args: strs(self.args@),
            cwd: ostr(self.cwd),
            url: ostr(self.url),
            transport: ostr(self.transport),
            env_keys: strs(self.env_keys@),
            env_secret_refs: pairs(self.env_secret_refs.entries()),
            header_secret_refs: pairs(self.header_secret_refs.entries()),
            tool_allow: strs(self.tool_allow@),
        }
    }
}

impl McpServer {
    /// A copy of this server.
    pub fn dup(&self) -> (r: Self)
        ensures
            r@ == self@,
    {
        McpServer {
            enabled_by_default: self.enabled_by_default,
            command: dup_opt(&self.command),
            args: dup_strs(&self.args),
            cwd: dup_opt(&self.cwd),
            url: dup_opt(&self.url),
            transport: dup_opt(&self.transport),
            env_keys: dup_strs(&self.env_keys),
            env_secret_refs: self.env_secret_refs.dup(),
            header_secret_refs: self.header_secret_refs.dup(),
            tool_allow: dup_strs(&self.tool_allow),
        }
    }
}

/// Per-agent changes to a server; absent fields keep the server's value.
pub struct McpServerOverride {
    pub command: Option<String>,
    pub args: Option<Vec<String>>,
    pub cwd: Option<String>,
    pub url: Option<String>,
    pub transport: Option<String>,
    pub env_keys: Option<Vec<String>>,
    pub env_secret_refs: StrMap<String>,
    pub header_secret_refs: StrMap<String>,
    pub tool_allow: Option<Vec<String>>,
}

/// The value an override stands for.
pub struct McpServerOverrideV {
    pub command: Option<Seq<char>>,
    pub args: Option<Seq<Seq<char>>>,
    pub cwd: Option<Seq<char>>,
    pub url: Option<Seq<char>>,
    pub transport: Option<Seq<char>>,
    pub env_keys: Option<Seq<Seq<char>>>,
    pub env_secret_refs: Seq<(Seq<char>, Seq<char>)>,
    pub header_secret_refs: Seq<(Seq<char>, Seq<char>)>,
    pub tool_allow: Option<Seq<Seq<char>>>,
}

impl View for McpServerOverride {
    type V = McpServerOverrideV;

    open spec fn view(&self) -> McpServerOverrideV {
        McpServerOverrideV {
            command: ostr(self.command),
            args: ostrs(self.args),
            cwd: ostr(self.cwd),
            url: ostr(self.url),
            transport: ostr(self.transport),
            env_keys: ostrs(self.env_keys),
            env_secret_refs: pairs(self.env_secret_refs.entries()),
            header_secret_refs: pairs(self.header_secret_refs.entries()),
            tool_allow: ostrs(self.tool_allow),
        }
    }
}

/// One agent's registry settings.
pub struct AgentMcpConfig {
    pub enabled: StrMap<bool>,
    pub overrides: StrMap<McpServerOverride>,
}

impl AgentMcpConfig {
    /// No enabled flags and no overrides (`Default`).
    pub fn empty() -> (c: Self)
        ensures
            c.enabled.entries().len() == 0,
            c.overrides.entries().len() == 0,
    {
        AgentMcpConfig { enabled: StrMap::new(), overrides: StrMap::new() }
    }
}

/// The value an agent's settings stand for.
pub struct AgentMcpConfigV {
    pub enabled: Seq<(Seq<char>, bool)>,
    pub overrides: Seq<(Seq<char>, McpServerOverrideV)>,
}

/// Key characters and override value of each entry.
pub open spec fn overrides_v(s: Seq<(String, McpServerOverride)>) -> Seq<
    (Seq<char>, McpServerOverrideV),
> {
    s.map_values(|e: (String, McpServerOverride)| (e.0@, e.1@))
}

impl View for AgentMcpConfig {
    type V = AgentMcpConfigV;

    open spec fn view(&self) -> AgentMcpConfigV {
        AgentMcpConfigV {
            enabled: flags(self.enabled.entries()),
            overrides: overrides_v(self.overrides.entries()),
        }
    }
}

/// Key characters and server value of each entry.
pub open spec fn servers_v(s: Seq<(String, McpServer)>) -> Seq<(Seq<char>, McpServerV)> {
    s.map_values(|e: (String, McpServer)| (e.0@, e.1@))
}

/// Key characters and agent settings of each entry.
pub open spec fn agents_v(s: Seq<(String, AgentMcpConfig)>) -> Seq<(Seq<char>, AgentMcpConfigV)> {
    s.map_values(|e: (String, AgentMcpConfig)| (e.0@, e.1@))
}

/// The central registry of MCP servers.
pub struct McpRegistry {
    pub version: u32,
    pub servers: StrMap<McpServer>,
    pub agents: StrMap<AgentMcpConfig>,
}

/// The value a registry stands for.
pub struct McpRegistryV {
    pub version: u32,
    pub servers: Seq<(Seq<char>, McpServerV)>,
    pub agents: Seq<(Seq<char>, AgentMcpConfigV)>,
}

impl View for McpRegistry {
    type V = McpRegistryV;

    open spec fn view(&self) -> McpRegistryV {
        McpRegistryV {
            version: self.version,
            servers: servers_v(self.servers.entries()),
            agents: agents_v(self.agents.entries()),
        }
    }
}

/// The servers one agent gets, each with its override applied.
pub struct AgentMcpPlan {
    pub agent: String,
    pub servers: StrMap<McpServer>,
}

/// The value of the first entry with key `k`.
pub open spec fn lookup<V>(s: Seq<(Seq<char>, V)>, k: Seq<char>) -> Option<V>
    decreases s.len(),
{
    if s.len() == 0 {
        None
    } else if s[0].0 == k {
        Some(s[0].1)
    } else {
        lookup(s.drop_first(), k)
    }
}

/// Keys of the entries, in order.
pub open spec fn keys_of<V>(s: Seq<(Seq<char>, V)>) -> Seq<Seq<char>> {
    s.map_values(|e: (Seq<char>, V)| e.0)
}

// ---------------------------------------------------------------------------
// Environment keys and secret references
/// A character allowed first in an environment key.
pub open spec fn env_head(c: char) -> bool {
    c == '_' || ('A' <= c && c <= 'Z')
}

/// A character allowed after the first in an environment key.
pub open spec fn env_tail(c: char) -> bool {
    env_head(c) || ('0' <= c && c <= '9')
}

/// `[_A-Z][_A-Z0-9]*`.
pub open spec fn env_key_ok(k: Seq<char>) -> bool {
    k.len() > 0 && env_head(k[0]) && forall|i: int| 1 <= i < k.len() ==> env_tail(#[trigger] k[i])
}

/// The check of one environment key.
pub open spec fn check_env_key(k: Seq<char>) -> Result<(), Seq<char>> {
    if env_key_ok(k) {
        Ok(())
    } else {
        Err("invalid environment key "@ + debug_text(k))
    }
}

/// The name inside a `${NAME}` reference.
pub open spec fn secret_name(r: Seq<char>) -> Option<Seq<char>> {
    if r.len() >= 3 && r[0] == '$' && r[1] == '{' && r.last() == '}' {
        Some(r.subrange(2, r.len() - 1))
    } else {
        None
    }
}

/// The check of one secret reference.
pub open spec fn check_secret_ref(r: Seq<char>) -> Result<(), Seq<char>> {
    match secret_name(r) {
        None => Err("secret references must use ${ENV_NAME}"@),
        Some(k) => check_env_key(k),
    }
}

/// Checks one environment key: `[_A-Z][_A-Z0-9]*`.
pub fn validate_env_key(key: &str) -> (r: Result<(), String>)
    ensures
        match r {
            Ok(()) => check_env_key(key@) is Ok,
            Err(m) => check_env_key(key@) == Err::<(), Seq<char>>(m@),
        },
{
    let k = chars_of(key);
    let mut ok = k.len() > 0 && (k[0] == '_' || ('A' <= k[0] && k[0] <= 'Z'));
    let mut i: usize = 1;
    while ok && i < k.len()
        invariant
            1 <= i,
            i <= k.len() || !ok,
            k@ == key@,
            ok ==> k.len() > 0 && env_head(k@[0]) && forall|j: int|
                1 <= j < i ==> env_tail(#[trigger] k@[j]),
            !ok ==> !env_key_ok(key@),
        decreases k.len() - i + (if ok {
            1int
        } else {
            0int
        }),
    {
        let c = k[i];
        if !(c == '_' || ('A' <= c && c <= 'Z') || ('0' <= c && c <= '9')) {
            ok = false;
        } else {
            i += 1;
        }
    }
    if ok {
        Ok(())
    } else {
        let mut m = "invalid environment key ".to_owned();
        let d = debug_str(key);
        push_str(&mut m, d.as_str());
        Err(m)
    }
}

/// Checks a `${ENV_NAME}` secret reference.
pub fn validate_secret_ref(reference: &str) -> (r: Result<(), String>)
    ensures
        match r {
            Ok(()) => check_secret_ref(reference@) is Ok,
            Err(m) => check_secret_ref(reference@) == Err::<(), Seq<char>>(m@),
        },
{
    let v = chars_of(reference);
    let n = v.len();
    if n >= 3 && v[0] == '$' && v[1] == '{' && v[n - 1] == '}' {
        let name = crate::text::slice_of(v.as_slice(), 2, n - 1);
        let name_s = crate::text::string_of(name.as_slice());
        validate_env_key(name_s.as_str())
    } else {
        Err("secret references must use ${ENV_NAME}".to_owned())
    }
}

/// The spec value of a unit result whose error is a message.
pub open spec fn rv(r: Result<(), String>) -> Result<(), Seq<char>> {
    match r {
        Ok(()) => Ok(()),
        Err(m) => Err(m@),
    }
}

/// The first failing environment key of `keys`.
pub open spec fn check_keys(keys: Seq<Seq<char>>) -> Result<(), Seq<char>>
    decreases keys.len(),
{
    if keys.len() == 0 {
        Ok(())
    } else {
        match check_env_key(keys[0]) {
            Err(e) => Err(e),
            Ok(()) => check_keys(keys.drop_first()),
        }
    }
}

/// The first failing environment secret reference, key checked before value.
pub open spec fn check_env_refs(refs: Seq<(Seq<char>, Seq<char>)>) -> Result<(), Seq<char>>
    decreases refs.len(),
{
    if refs.len() == 0 {
        Ok(())
    } else {
        match check_env_key(refs[0].0) {
            Err(e) => Err(e),
            Ok(()) => match check_secret_ref(refs[0].1) {
                Err(e) => Err(e),
                Ok(()) => check_env_refs(refs.drop_first()),
            },
        }
    }
}

/// The first failing header secret reference of server `name`.
pub open spec fn check_header_refs(name: Seq<char>, refs: Seq<(Seq<char>, Seq<char>)>) -> Result<
    (),
    Seq<char>,
>
    decreases refs.len(),
{
    if refs.len() == 0 {
        Ok(())
    } else if trim_s(refs[0].0).len() == 0 {
        Err("MCP server "@ + name + " has an empty header name"@)
    } else {
        match check_secret_ref(refs[0].1) {
            Err(e) => Err(e),
            Ok(()) => check_header_refs(name, refs.drop_first()),
        }
    }
}

/// The transports a server may name: `stdio` for a command, `http` or `sse`
/// for a URL.
pub open spec fn transport_ok(has_url: bool, t: Seq<char>) -> bool {
    if has_url {
        t == "http"@ || t == "sse"@
    } else {
        t == "stdio"@
    }
}

/// The check of server `name`: exactly one of command or URL, a transport
/// that fits it, then its environment keys, environment references and
/// header references in key order.
pub open spec fn check_server(name: Seq<char>, s: McpServerV) -> Result<(), Seq<char>> {
    if (s.command is Some) == (s.url is Some) {
        Err("MCP server "@ + name + " must set exactly one of command or url"@)
    } else if s.transport is Some && !transport_ok(s.url is Some, s.transport->0) {
        Err("MCP server "@ + name + " has unsupported transport "@ + s.transport->0)
    } else {
        match check_keys(s.env_keys) {
            Err(e) => Err(e),
            Ok(()) => match check_env_refs(s.env_secret_refs) {
                Err(e) => Err(e),
                Ok(()) => check_header_refs(name, s.header_secret_refs),
            },
        }
    }
}

/// `"MCP server " + name + tail`.
fn server_msg(name: &str, tail: &str) -> (m: String)
    ensures
        m@ == "MCP server "@ + name@ + tail@,
{
    let mut m = "MCP server ".to_owned();
    push_str(&mut m, name);
    push_str(&mut m, tail);
    m
}

/// Checks the environment keys in order.
fn validate_keys(keys: &Vec<String>) -> (r: Result<(), String>)
    ensures
        rv(r) == check_keys(strs(keys@)),
{
    let ghost all = strs(keys@);
    let mut i: usize = 0;
    proof {
        assert(all.skip(0) =~= all);
    }
    while i < keys.len()
        invariant
            i <= keys.len(),
            all == strs(keys@),
            check_keys(all) == check_keys(all.skip(i as int)),
        decreases keys.len() - i,
    {
        let r = validate_env_key(keys[i].as_str());
        proof {
            assert(all.skip(i as int)[0] == keys@[i as int]@);
            assert(all.skip(i as int).drop_first() =~= all.skip(i + 1));
        }
        if r.is_err() {
            return r;
        }
        i += 1;
    }
    Ok(())
}

/// Checks the environment secret references in key order.
fn validate_env_refs(refs: &StrMap<String>) -> (r: Result<(), String>)
    ensures
        rv(r) == check_env_refs(pairs(refs.entries())),
{
    let ghost all = pairs(refs.entries());
    let mut i: usize = 0;
    proof {
        assert(all.skip(0) =~= all);
    }
    while i < refs.len()
        invariant
            i <= refs.entries().len(),
            all == pairs(refs.entries()),
            check_env_refs(all) == check_env_refs(all.skip(i as int)),
        decreases refs.entries().len() - i,
    {
        proof {
            assert(all.skip(i as int)[0] == all[i as int]);
            assert(all.skip(i as int).drop_first() =~= all.skip(i + 1));
        }
        let r = validate_env_key(refs.key_at(i).as_str());
        if r.is_err() {
            return r;
        }
        let r2 = validate_secret_ref(refs.value_at(i).as_str());
        if r2.is_err() {
            return r2;
        }
        i += 1;
    }
    Ok(())
}

/// Checks the header secret references of server `name` in key order.
fn validate_header_refs(name: &str, refs: &StrMap<String>) -> (r: Result<(), String>)
    ensures
        rv(r) == check_header_refs(name@, pairs(refs.entries())),
{
    let ghost all = pairs(refs.entries());
    let mut i: usize = 0;
    proof {
        assert(all.skip(0) =~= all);
    }
    while i < refs.len()
        invariant
            i <= refs.entries().len(),
            all == pairs(refs.entries()),
            check_header_refs(name@, all) == check_header_refs(name@, all.skip(i as int)),
        decreases refs.entries().len() - i,
    {
        proof {
            assert(all.skip(i as int)[0] == all[i as int]);
            assert(all.skip(i as int).drop_first() =~= all.skip(i + 1));
        }
        if is_blank(refs.key_at(i).as_str()) {
            return Err(server_msg(name, " has an empty header name"));
        }
        let r = validate_secret_ref(refs.value_at(i).as_str());
        if r.is_err() {
            return r;
        }
        i += 1;
    }
    Ok(())
}

/// Checks one registry server.
pub fn validate_server(name: &str, server: &McpServer) -> (r: Result<(), String>)
    ensures
        rv(r) == check_server(name@, server@),
{
    if server.command.is_some() == server.url.is_some() {
        return Err(server_msg(name, " must set exactly one of command or url"));
    }
    match &server.transport {
        Some(t) => {
            let ok = if server.url.is_some() {
                crate::text::str_is(t.as_str(), "http") || crate::text::str_is(t.as_str(), "sse")
            } else {
                crate::text::str_is(t.as_str(), "stdio")
            };
            if !ok {
                let mut m = server_msg(name, " has unsupported transport ");
                push_str(&mut m, t.as_str());
                return Err(m);
            }
        },
        None => {},
    }
    let r = validate_keys(&server.env_keys);
    if r.is_err() {
        return r;
    }
    let r = validate_env_refs(&server.env_secret_refs);
    if r.is_err() {
        return r;
    }
    validate_header_refs(name, &server.header_secret_refs)
}

/// `insert_s` on key and value characters.
pub open spec fn insert_p(s: Seq<(Seq<char>, Seq<char>)>, k: Seq<char>, v: Seq<char>) -> Seq<
    (Seq<char>, Seq<char>),
>
    decreases s.len(),
{
    if s.len() == 0 {
        seq![(k, v)]
    } else if s[0].0 == k {
        seq![(k, v)] + s.drop_first()
    } else if lt_s(k, s[0].0) {
        seq![(k, v)] + s
    } else {
        seq![s[0]] + insert_p(s.drop_first(), k, v)
    }
}

/// `BTreeMap::extend`: each entry of `b`, in order, inserted into `a`.
pub open spec fn extend_p(a: Seq<(Seq<char>, Seq<char>)>, b: Seq<(Seq<char>, Seq<char>)>) -> Seq<
    (Seq<char>, Seq<char>),
>
    decreases b.len(),
{
    if b.len() == 0 {
        a
    } else {
        insert_p(extend_p(a, b.drop_last()), b.last().0, b.last().1)
    }
}

/// `pairs` commutes with insertion.
pub proof fn lemma_pairs_insert(s: Seq<(String, String)>, k: String, v: String)
    ensures
        pairs(insert_s(s, k, v)) == insert_p(pairs(s), k@, v@),
    decreases s.len(),
{
    if s.len() == 0 {
        assert(pairs(seq![(k, v)]) =~= seq![(k@, v@)]);
    } else {
        assert(pairs(s)[0] == (s[0].0@, s[0].1@));
        assert(pairs(s).drop_first() =~= pairs(s.drop_first()));
        if s[0].0@ == k@ {
            assert(pairs(seq![(k, v)] + s.drop_first()) =~= seq![(k@, v@)] + pairs(
                s.drop_first(),
            ));
        } else if lt_s(k@, s[0].0@) {
            assert(pairs(seq![(k, v)] + s) =~= seq![(k@, v@)] + pairs(s));
        } else {
            lemma_pairs_insert(s.drop_first(), k, v);
            assert(pairs(seq![s[0]] + insert_s(s.drop_first(), k, v)) =~= seq![
                (s[0].0@, s[0].1@),
            ] + pairs(insert_s(s.drop_first(), k, v)));
        }
    }
}

/// The server that override `ov` makes of `base`, when it does not set both a
/// command and a URL.
pub open spec fn override_s(base: McpServerV, ov: McpServerOverrideV) -> McpServerV {
    McpServerV {
        enabled_by_default: base.enabled_by_default,
        command: if ov.url is Some {
            None
        } else if ov.command is Some {
            ov.command
        } else {
            base.command
        },
        url: if ov.url is Some {
            ov.url
        } else if ov.command is Some {
            None
        } else {
            base.url
        },
        transport: if ov.transport is Some {
            ov.transport
        } else {
            base.transport
        },
        args: match ov.args {
            Some(a) => a,
            None => base.args,
        },
        cwd: if ov.cwd is Some {
            ov.cwd
        } else {
            base.cwd
        },
        env_keys: match ov.env_keys {
            Some(k) => k,
            None => base.env_keys,
        },
        env_secret_refs: extend_p(base.env_secret_refs, ov.env_secret_refs),
        header_secret_refs: extend_p(base.header_secret_refs, ov.header_secret_refs),
        tool_allow: match ov.tool_allow {
            Some(t) => t,
            None => base.tool_allow,
        },
    }
}

/// An override may not set both a command and a URL.
pub open spec fn override_conflicts(ov: McpServerOverrideV) -> bool {
    ov.command is Some && ov.url is Some
}

/// The result of applying `ov` to `base`.
pub open spec fn apply_override_s(base: McpServerV, ov: McpServerOverrideV) -> Result<
    McpServerV,
    Seq<char>,
> {
    if override_conflicts(ov) {
        Err("MCP override cannot set both command and url"@)
    } else {
        Ok(override_s(base, ov))
    }
}

/// Inserts a copy of every entry of `from` into `into`, in order.
fn extend_refs(into: &mut StrMap<String>, from: &StrMap<String>)
    ensures
        pairs(final(into).entries()) == extend_p(pairs(old(into).entries()), pairs(from.entries())),
{
    let ghost start = pairs(into.entries());
    let ghost b = pairs(from.entries());
    let mut i: usize = 0;
    proof {
        assert(b.take(0) =~= Seq::<(Seq<char>, Seq<char>)>::empty());
    }
    while i < from.len()
        invariant
            i <= from.entries().len(),
            b == pairs(from.entries()),
            pairs(into.entries()) == extend_p(start, b.take(i as int)),
        decreases from.entries().len() - i,
    {
        let k = from.key_at(i).clone();
        let v = from.value_at(i).clone();
        let ghost before = into.entries();
        into.insert(k, v);
        proof {
            lemma_pairs_insert(before, k, v);
            assert(b.take(i + 1).drop_last() =~= b.take(i as int));
            assert(b.take(i + 1).last() == b[i as int]);
        }
        i += 1;
    }
    proof {
        assert(b.take(from.entries().len() as int) =~= b);
    }
}

/// Applies a per-agent override to a server.
pub fn apply_override(base: &McpServer, override_: &McpServerOverride) -> (r: Result<
    McpServer,
    String,
>)
    ensures
        match r {
            Ok(s) => apply_override_s(base@, override_@) == Ok::<McpServerV, Seq<char>>(s@),
            Err(m) => apply_override_s(base@, override_@) == Err::<McpServerV, Seq<char>>(m@),
        },
{
    if override_.command.is_some() && override_.url.is_some() {
        return Err("MCP override cannot set both command and url".to_owned());
    }
    let mut resolved = base.dup();
    match &override_.command {
        Some(command) => {
            resolved.command = Some(command.clone());
            resolved.url = None;
        },
        None => {},
    }
    match &override_.url {
        Some(url) => {
            resolved.url = Some(url.clone());
            resolved.command = None;
        },
        None => {},
    }
    match &override_.transport {
        Some(t) => {
            resolved.transport = Some(t.clone());
        },
        None => {},
    }
    match &override_.args {
        Some(args) => {
            resolved.args = dup_strs(args);
        },
        None => {},
    }
    match &override_.cwd {
        Some(cwd) => {
            resolved.cwd = Some(cwd.clone());
        },
        None => {},
    }
    match &override_.env_keys {
        Some(keys) => {
            resolved.env_keys = dup_strs(keys);
        },
        None => {},
    }
    extend_refs(&mut resolved.env_secret_refs, &override_.env_secret_refs);
    extend_refs(&mut resolved.header_secret_refs, &override_.header_secret_refs);
    match &override_.tool_allow {
        Some(tools) => {
            resolved.tool_allow = dup_strs(tools);
        },
        None => {},
    }
    proof {
        assert(resolved@ == override_s(base@, override_@));
    }
    Ok(resolved)
}

/// The first failing server, in key order.
pub open spec fn check_servers(s: Seq<(Seq<char>, McpServerV)>) -> Result<(), Seq<char>>
    decreases s.len(),
{
    if s.len() == 0 {
        Ok(())
    } else {
        match check_server(s[0].0, s[0].1) {
            Err(e) => Err(e),
            Ok(()) => check_servers(s.drop_first()),
        }
    }
}

/// The first of `names` that is not a registry server.
pub open spec fn check_known(
    servers: Seq<(Seq<char>, McpServerV)>,
    agent: Seq<char>,
    names: Seq<Seq<char>>,
) -> Result<(), Seq<char>>
    decreases names.len(),
{
    if names.len() == 0 {
        Ok(())
    } else if lookup(servers, names[0]) is None {
        Err("agent "@ + agent + " references unknown MCP server "@ + names[0])
    } else {
        check_known(servers, agent, names.drop_first())
    }
}

/// The first override that fails to apply, or whose result fails the server check.
pub open spec fn check_overrides(
    servers: Seq<(Seq<char>, McpServerV)>,
    ovs: Seq<(Seq<char>, McpServerOverrideV)>,
) -> Result<(), Seq<char>>
    decreases ovs.len(),
{
    if ovs.len() == 0 {
        Ok(())
    } else {
        match apply_override_s(lookup(servers, ovs[0].0)->0, ovs[0].1) {
            Err(e) => Err(e),
            Ok(res) => match check_server(ovs[0].0, res) {
                Err(e) => Err(e),
                Ok(()) => check_overrides(servers, ovs.drop_first()),
            },
        }
    }
}

/// The first failing agent: unknown servers among its enabled flags and
/// overrides, then its overrides.
pub open spec fn check_agents(
    servers: Seq<(Seq<char>, McpServerV)>,
    agents: Seq<(Seq<char>, AgentMcpConfigV)>,
) -> Result<(), Seq<char>>
    decreases agents.len(),
{
    if agents.len() == 0 {
        Ok(())
    } else {
        match check_known(
            servers,
            agents[0].0,
            keys_of(agents[0].1.enabled) + keys_of(agents[0].1.overrides),
        ) {
            Err(e) => Err(e),
            Ok(()) => match check_overrides(servers, agents[0].1.overrides) {
                Err(e) => Err(e),
                Ok(()) => check_agents(servers, agents.drop_first()),
            },
        }
    }
}

/// The check of a whole registry: its version, its servers, then its agents.
pub open spec fn check_registry(r: McpRegistryV) -> Result<(), Seq<char>> {
    if r.version != REGISTRY_VERSION {
        Err("unsupported MCP registry version "@ + dec_s(r.version as nat))
    } else {
        match check_servers(r.servers) {
            Err(e) => Err(e),
            Ok(()) => check_agents(r.servers, r.agents),
        }
    }
}

/// Whether server `name` is on for agent settings `cfg`: its flag there, else
/// the server's default.
pub open spec fn enabled_for(cfg: Option<AgentMcpConfigV>, name: Seq<char>, server: McpServerV) -> bool {
    match cfg {
        Some(c) => match lookup(c.enabled, name) {
            Some(b) => b,
            None => server.enabled_by_default,
        },
        None => server.enabled_by_default,
    }
}

/// Server `name` as agent settings `cfg` resolve it.
pub open spec fn resolved_for(cfg: Option<AgentMcpConfigV>, name: Seq<char>, server: McpServerV) -> McpServerV {
    match cfg {
        Some(c) => match lookup(c.overrides, name) {
            Some(o) => override_s(server, o),
            None => server,
        },
        None => server,
    }
}

/// The servers that agent settings `cfg` turn on, resolved, in key order.
pub open spec fn plan_s(servers: Seq<(Seq<char>, McpServerV)>, cfg: Option<AgentMcpConfigV>) -> Seq<
    (Seq<char>, McpServerV),
>
    decreases servers.len(),
{
    if servers.len() == 0 {
        Seq::empty()
    } else {
        let rest = plan_s(servers.drop_first(), cfg);
        if enabled_for(cfg, servers[0].0, servers[0].1) {
            seq![(servers[0].0, resolved_for(cfg, servers[0].0, servers[0].1))] + rest
        } else {
            rest
        }
    }
}

/// A lookup among servers is the lookup of the raw entries, viewed.
pub proof fn lemma_lookup_servers(s: Seq<(String, McpServer)>, k: Seq<char>)
    ensures
        lookup(servers_v(s), k) == match get_s(s, k) {
            Some(v) => Some(v@),
            None => None::<McpServerV>,
        },
    decreases s.len(),
{
    if s.len() > 0 {
        assert(servers_v(s).drop_first() =~= servers_v(s.drop_first()));
        lemma_lookup_servers(s.drop_first(), k);
    }
}

/// A lookup among agents is the lookup of the raw entries, viewed.
pub proof fn lemma_lookup_agents(s: Seq<(String, AgentMcpConfig)>, k: Seq<char>)
    ensures
        lookup(agents_v(s), k) == match get_s(s, k) {
            Some(v) => Some(v@),
            None => None::<AgentMcpConfigV>,
        },
    decreases s.len(),
{
    if s.len() > 0 {
        assert(agents_v(s).drop_first() =~= agents_v(s.drop_first()));
        lemma_lookup_agents(s.drop_first(), k);
    }
}

/// A lookup among flags is the lookup of the raw entries.
pub proof fn lemma_lookup_flags(s: Seq<(String, bool)>, k: Seq<char>)
    ensures
        lookup(flags(s), k) == get_s(s, k),
    decreases s.len(),
{
    if s.len() > 0 {
        assert(flags(s).drop_first() =~= flags(s.drop_first()));
        lemma_lookup_flags(s.drop_first(), k);
    }
}

/// A lookup among overrides is the lookup of the raw entries, viewed.
pub proof fn lemma_lookup_overrides(s: Seq<(String, McpServerOverride)>, k: Seq<char>)
    ensures
        lookup(overrides_v(s), k) == match get_s(s, k) {
            Some(v) => Some(v@),
            None => None::<McpServerOverrideV>,
        },
    decreases s.len(),
{
    if s.len() > 0 {
        assert(overrides_v(s).drop_first() =~= overrides_v(s.drop_first()));
        lemma_lookup_overrides(s.drop_first(), k);
    }
}

/// Every override that passes `check_overrides` sets at most one of command and URL.
pub proof fn lemma_overrides_ok(
    servers: Seq<(Seq<char>, McpServerV)>,
    ovs: Seq<(Seq<char>, McpServerOverrideV)>,
    name: Seq<char>,
)
    requires
        check_overrides(servers, ovs) is Ok,
        lookup(ovs, name) is Some,
    ensures
        !override_conflicts(lookup(ovs, name)->0),
    decreases ovs.len(),
{
    if ovs[0].0 != name {
        lemma_overrides_ok(servers, ovs.drop_first(), name);
    }
}

/// A lookup that finds an agent finds one of the entries.
pub proof fn lemma_agents_ok(
    servers: Seq<(Seq<char>, McpServerV)>,
    agents: Seq<(Seq<char>, AgentMcpConfigV)>,
    name: Seq<char>,
)
    requires
        check_agents(servers, agents) is Ok,
        lookup(agents, name) is Some,
    ensures
        check_overrides(servers, lookup(agents, name)->0.overrides) is Ok,
    decreases agents.len(),
{
    if agents[0].0 != name {
        lemma_agents_ok(servers, agents.drop_first(), name);
    }
}

/// `"agent " + agent + " references unknown MCP server " + server`.
fn unknown_msg(agent: &str, server: &str) -> (m: String)
    ensures
        m@ == "agent "@ + agent@ + " references unknown MCP server "@ + server@,
{
    let mut m = "agent ".to_owned();
    push_str(&mut m, agent);
    push_str(&mut m, " references unknown MCP server ");
    push_str(&mut m, server);
    m
}

impl McpRegistry {
    /// Checks the version, every server, and every agent's references and overrides.
    pub fn validate(&self) -> (r: Result<(), String>)
        ensures
            rv(r) == check_registry(self@),
    {
        if self.version != REGISTRY_VERSION {
            let mut m = "unsupported MCP registry version ".to_owned();
            let d = dec(self.version as u64);
            push_str(&mut m, d.as_str());
            return Err(m);
        }
        let ghost sv = self@.servers;
        let mut i: usize = 0;
        proof {
            assert(sv.skip(0) =~= sv);
        }
        while i < self.servers.len()
            invariant
                i <= self.servers.entries().len(),
                self.version == REGISTRY_VERSION,
                sv == self@.servers,
                check_servers(sv) == check_servers(sv.skip(i as int)),
            decreases self.servers.entries().len() - i,
        {
            let key = self.servers.key_at(i);
            let value = self.servers.value_at(i);
            proof {
                assert(sv.skip(i as int)[0] == sv[i as int]);
                assert(sv[i as int] == (key@, value@));
                assert(sv.skip(i as int).drop_first() =~= sv.skip(i + 1));
            }
            let r = validate_server(key.as_str(), value);
            if r.is_err() {
                return r;
            }
            i += 1;
        }
        let ghost av = self@.agents;
        let mut a: usize = 0;
        proof {
            assert(av.skip(0) =~= av);
        }
        while a < self.agents.len()
            invariant
                a <= self.agents.entries().len(),
                self.version == REGISTRY_VERSION,
                sv == self@.servers,
                av == self@.agents,
                check_servers(sv) is Ok,
                check_agents(sv, av) == check_agents(sv, av.skip(a as int)),
            decreases self.agents.entries().len() - a,
        {
            proof {
                assert(av.skip(a as int)[0] == av[a as int]);
                assert(av.skip(a as int).drop_first() =~= av.skip(a + 1));
            }
            let agent = self.agents.key_at(a);
            let config = self.agents.value_at(a);
            proof {
                assert(av[a as int] == (agent@, config@));
            }
            let r = self.validate_agent_refs(agent.as_str(), config);
            if r.is_err() {
                return r;
            }
            proof {
                let e = keys_of(config@.enabled);
                let o = keys_of(config@.overrides);
                lemma_known(self@.servers, agent@, e + o);
                assert forall|j: int| 0 <= j < config@.overrides.len() implies lookup(
                    self@.servers,
                    #[trigger] config@.overrides[j].0,
                ) is Some by {
                    assert((e + o)[e.len() + j] == config@.overrides[j].0);
                }
            }
            let r = self.validate_agent_overrides(config);
            if r.is_err() {
                return r;
            }
            a += 1;
        }
        Ok(())
    }

    /// Every server that an agent's flags and overrides name must exist.
    fn validate_agent_refs(&self, agent: &str, config: &AgentMcpConfig) -> (r: Result<(), String>)
        ensures
            rv(r) == check_known(
                self@.servers,
                agent@,
                keys_of(config@.enabled) + keys_of(config@.overrides),
            ),
    {
        let ghost e = keys_of(config@.enabled);
        let ghost o = keys_of(config@.overrides);
        let mut j: usize = 0;
        proof {
            assert(e.skip(0) =~= e);
        }
        while j < config.enabled.len()
            invariant
                j <= config.enabled.entries().len(),
                e == keys_of(config@.enabled),
                o == keys_of(config@.overrides),
                check_known(self@.servers, agent@, e + o) == check_known(
                    self@.servers,
                    agent@,
                    e.skip(j as int) + o,
                ),
            decreases config.enabled.entries().len() - j,
        {
            let name = config.enabled.key_at(j);
            proof {
                assert(flags(config.enabled.entries())[j as int] == (name@, config.enabled.entries()[j as int].1));
                assert(e[j as int] == name@);
                assert(e.skip(j as int)[0] == name@);
                assert((e.skip(j as int) + o)[0] == name@);
                assert((e.skip(j as int) + o).drop_first() =~= e.skip(j + 1) + o);
                lemma_lookup_servers(self.servers.entries(), name@);
            }
            if !self.servers.contains_key(name.as_str()) {
                return Err(unknown_msg(agent, name.as_str()));
            }
            j += 1;
        }
        proof {
            assert(e.skip(j as int) + o =~= o);
            assert(o.skip(0) =~= o);
        }
        let mut j: usize = 0;
        while j < config.overrides.len()
            invariant
                j <= config.overrides.entries().len(),
                o == keys_of(config@.overrides),
                e == keys_of(config@.enabled),
                check_known(self@.servers, agent@, e + o) == check_known(
                    self@.servers,
                    agent@,
                    o.skip(j as int),
                ),
            decreases config.overrides.entries().len() - j,
        {
            let name = config.overrides.key_at(j);
            proof {
                assert(overrides_v(config.overrides.entries())[j as int].0 == name@);
                assert(o[j as int] == name@);
                assert(o.skip(j as int)[0] == name@);
                assert(o.skip(j as int).drop_first() =~= o.skip(j + 1));
                lemma_lookup_servers(self.servers.entries(), name@);
            }
            if !self.servers.contains_key(name.as_str()) {
                return Err(unknown_msg(agent, name.as_str()));
            }
            j += 1;
        }
        Ok(())
    }

    /// Each of an agent's overrides must apply and give a valid server.
    fn validate_agent_overrides(&self, config: &AgentMcpConfig) -> (r: Result<(), String>)
        requires
            forall|j: int|
                0 <= j < config@.overrides.len() ==> lookup(
                    self@.servers,
                    #[trigger] config@.overrides[j].0,
                ) is Some,
        ensures
            rv(r) == check_overrides(self@.servers, config@.overrides),
    {
        let ghost ov = config@.overrides;
        let mut j: usize = 0;
        proof {
            assert(ov.skip(0) =~= ov);
        }
        while j < config.overrides.len()
            invariant
                j <= config.overrides.entries().len(),
                ov == config@.overrides,
                forall|m: int|
                    0 <= m < ov.len() ==> lookup(self@.servers, #[trigger] ov[m].0) is Some,
                check_overrides(self@.servers, ov) == check_overrides(
                    self@.servers,
                    ov.skip(j as int),
                ),
            decreases config.overrides.entries().len() - j,
        {
            let name = config.overrides.key_at(j);
            let o = config.overrides.value_at(j);
            proof {
                assert(ov.skip(j as int)[0] == ov[j as int]);
                assert(ov[j as int] == (name@, o@));
                assert(ov.skip(j as int).drop_first() =~= ov.skip(j + 1));
                lemma_lookup_servers(self.servers.entries(), name@);
                assert(lookup(self@.servers, ov[j as int].0) is Some);
            }
            match self.servers.get(name.as_str()) {
                Some(base) => {
                    match apply_override(base, o) {
                        Ok(resolved) => {
                            let r = validate_server(name.as_str(), &resolved);
                            if r.is_err() {
                                return r;
                            }
                        },
                        Err(m) => {
                            return Err(m);
                        },
                    }
                },
                None => {
                    return Ok(());
                },
            }
            j += 1;
        }
        Ok(())
    }
}

/// Names that pass `check_known` are all registry servers.
pub proof fn lemma_known(
    servers: Seq<(Seq<char>, McpServerV)>,
    agent: Seq<char>,
    names: Seq<Seq<char>>,
)
    requires
        check_known(servers, agent, names) is Ok,
    ensures
        forall|j: int| 0 <= j < names.len() ==> lookup(servers, #[trigger] names[j]) is Some,
    decreases names.len(),
{
    if names.len() > 0 {
        lemma_known(servers, agent, names.drop_first());
        assert forall|j: int| 0 <= j < names.len() implies lookup(servers, #[trigger] names[j])
            is Some by {
            if j > 0 {
                assert(names[j] == names.drop_first()[j - 1]);
            }
        }
    }
}

impl McpRegistry {
    /// The servers that `agent` gets: those its flags (or the server defaults)
    /// turn on, each with the agent's override applied, in key order. Fails
    /// with the validation error of an invalid registry.
    pub fn plan_for_agent(&self, agent: &str) -> (r: Result<AgentMcpPlan, String>)
        ensures
            match r {
                Ok(p) => check_registry(self@) is Ok && p.agent@ == agent@ && servers_v(
                    p.servers.entries(),
                ) == plan_s(self@.servers, lookup(self@.agents, agent@)),
                Err(m) => check_registry(self@) == Err::<(), Seq<char>>(m@),
            },
    {
        let v = self.validate();
        match v {
            Err(m) => {
                return Err(m);
            },
            Ok(()) => {},
        }
        let config = self.agents.get(agent);
        let ghost cfg = lookup(self@.agents, agent@);
        proof {
            lemma_lookup_agents(self.agents.entries(), agent@);
            if cfg is Some {
                lemma_agents_ok(self@.servers, self@.agents, agent@);
            }
            use_type_invariant(&self.servers);
            self.servers.lemma_inv();
        }
        let ghost sv = self@.servers;
        let mut servers: StrMap<McpServer> = StrMap::new();
        let mut i: usize = 0;
        proof {
            assert(sv.skip(0) =~= sv);
            assert(servers_v(servers.entries()) =~= Seq::<(Seq<char>, McpServerV)>::empty());
        }
        while i < self.servers.len()
            invariant
                i <= self.servers.entries().len(),
                sv == self@.servers,
                keys_increasing(self.servers.entries()),
                cfg == lookup(self@.agents, agent@),
                cfg == match config {
                    Some(c) => Some(c@),
                    None => None::<AgentMcpConfigV>,
                },
                cfg is Some ==> check_overrides(sv, cfg->0.overrides) is Ok,
                servers_v(servers.entries()) + plan_s(sv.skip(i as int), cfg) == plan_s(sv, cfg),
                servers.entries().len() > 0 ==> exists|m: int|
                    0 <= m < i && servers.entries().last().0@ == self.servers.entries()[m].0@,
            decreases self.servers.entries().len() - i,
        {
            let name = self.servers.key_at(i);
            let server = self.servers.value_at(i);
            proof {
                assert(sv[i as int] == (name@, server@));
                assert(sv.skip(i as int)[0] == sv[i as int]);
                assert(sv.skip(i as int).drop_first() =~= sv.skip(i + 1));
            }
            let enabled = match config {
                Some(c) => {
                    proof {
                        lemma_lookup_flags(c.enabled.entries(), name@);
                    }
                    match c.enabled.get(name.as_str()) {
                        Some(b) => *b,
                        None => server.enabled_by_default,
                    }
                },
                None => server.enabled_by_default,
            };
            if enabled {
                let resolved = match config {
                    Some(c) => {
                        proof {
                            lemma_lookup_overrides(c.overrides.entries(), name@);
                        }
                        match c.overrides.get(name.as_str()) {
                            Some(o) => {
                                proof {
                                    lemma_overrides_ok(sv, cfg->0.overrides, name@);
                                }
                                match apply_override(server, o) {
                                    Ok(x) => x,
                                    Err(m) => {
                                        return Err(m);
                                    },
                                }
                            },
                            None => server.dup(),
                        }
                    },
                    None => server.dup(),
                };
                let ghost before = servers.entries();
                let key = name.clone();
                proof {
                    use_type_invariant(&servers);
                    servers.lemma_inv();
                    assert forall|j: int| 0 <= j < before.len() implies lt_s(
                        #[trigger] before[j].0@,
                        key@,
                    ) by {
                        let m = choose|m: int|
                            0 <= m < i && before.last().0@ == self.servers.entries()[m].0@;
                        assert(lt_s(self.servers.entries()[m].0@, self.servers.entries()[i as int].0@));
                        if j < before.len() - 1 {
                            crate::text::lemma_lt_trans(
                                before[j].0@,
                                before.last().0@,
                                key@,
                            );
                        }
                    }
                    lemma_insert_last(before, key, resolved);
                }
                servers.insert(key, resolved);
                proof {
                    assert(servers_v(before.push((key, resolved))) =~= servers_v(before).push(
                        (key@, resolved@),
                    ));
                    assert(servers_v(servers.entries()) + plan_s(sv.skip(i + 1), cfg) =~= servers_v(
                        before,
                    ) + plan_s(sv.skip(i as int), cfg));
                    assert(servers.entries().last().0@ == self.servers.entries()[i as int].0@);
                }
            }
            i += 1;
        }
        proof {
            assert(sv.skip(i as int) =~= Seq::<(Seq<char>, McpServerV)>::empty());
            assert(servers_v(servers.entries()) =~= plan_s(sv, cfg));
        }
        Ok(AgentMcpPlan { agent: agent.to_owned(), servers })
    }
}

/// `shared::default_mcp_registry_path`: `~/.harnesskit/shared/mcp-registry.yaml`,
/// or an error when the home directory is unknown.
pub fn default_mcp_registry_path() -> (r: Result<String, String>)
    ensures
        match r {
            Ok(p) => exists|h: Seq<char>| p@ == crate::paths::join_s(h, ".harnesskit/shared/mcp-registry.yaml"@),
            Err(m) => m@ == "home directory is unavailable"@,
        },
{
    match crate::paths::home_dir_text() {
        Some(h) => Ok(registry_path_in(h.as_str())),
        None => Err("home directory is unavailable".to_owned()),
    }
}

/// The registry file below a home directory.
pub fn registry_path_in(home: &str) -> (p: String)
    ensures
        p@ == crate::paths::join_s(home@, ".harnesskit/shared/mcp-registry.yaml"@),
{
    crate::paths::join(home, ".harnesskit/shared/mcp-registry.yaml")
}

/// The default of `enabled_by_default` when a registry file omits it.
pub fn default_true() -> (b: bool)
    ensures
        b,
{
    true
}

/// No two entries share a key.
pub open spec fn keys_unique<V>(s: Seq<(Seq<char>, V)>) -> bool {
    forall|i: int, j: int| 0 <= i < j < s.len() ==> s[i].0 != s[j].0
}

/// Every server of a list that passes the check passes its own check.
proof fn lemma_servers_pass(s: Seq<(Seq<char>, McpServerV)>, i: int)
    requires
        check_servers(s) is Ok,
        0 <= i < s.len(),
    ensures
        check_server(s[i].0, s[i].1) is Ok,
    decreases s.len(),
{
    if i > 0 {
        lemma_servers_pass(s.drop_first(), i - 1);
    }
}

/// Every override of a list that passes the check applies, and the result
/// passes the server check.
proof fn lemma_overrides_pass(
    servers: Seq<(Seq<char>, McpServerV)>,
    ovs: Seq<(Seq<char>, McpServerOverrideV)>,
    k: int,
)
    requires
        check_overrides(servers, ovs) is Ok,
        0 <= k < ovs.len(),
    ensures
        apply_override_s(lookup(servers, ovs[k].0)->0, ovs[k].1) matches Ok(res) && check_server(
            ovs[k].0,
            res,
        ) is Ok,
    decreases ovs.len(),
{
    if k > 0 {
        lemma_overrides_pass(servers, ovs.drop_first(), k - 1);
    }
}

/// Every agent of a list that passes the check has overrides that pass.
proof fn lemma_agents_pass(
    servers: Seq<(Seq<char>, McpServerV)>,
    agents: Seq<(Seq<char>, AgentMcpConfigV)>,
    j: int,
)
    requires
        check_agents(servers, agents) is Ok,
        0 <= j < agents.len(),
    ensures
        check_overrides(servers, agents[j].1.overrides) is Ok,
    decreases agents.len(),
{
    if j > 0 {
        lemma_agents_pass(servers, agents.drop_first(), j - 1);
    }
}

/// What a lookup finds is an entry of the list.
proof fn lemma_lookup_found<V>(s: Seq<(Seq<char>, V)>, k: Seq<char>) -> (i: int)
    requires
        lookup(s, k) is Some,
    ensures
        0 <= i < s.len(),
        s[i].0 == k,
        lookup(s, k) == Some(s[i].1),
    decreases s.len(),
{
    if s[0].0 == k {
        0
    } else {
        let j = lemma_lookup_found(s.drop_first(), k);
        j + 1
    }
}

/// With keys unique, a lookup by an entry's key finds that entry.
proof fn lemma_lookup_unique<V>(s: Seq<(Seq<char>, V)>, i: int)
    requires
        keys_unique(s),
        0 <= i < s.len(),
    ensures
        lookup(s, s[i].0) == Some(s[i].1),
    decreases s.len(),
{
    if i > 0 {
        assert(s[0].0 != s[i].0);
        assert(keys_unique(s.drop_first()));
        lemma_lookup_unique(s.drop_first(), i - 1);
    }
}

/// Each entry of a plan is a registry server, resolved for the agent.
proof fn lemma_plan_entry(servers: Seq<(Seq<char>, McpServerV)>, cfg: Option<AgentMcpConfigV>, m: int) -> (i: int)
    requires
        0 <= m < plan_s(servers, cfg).len(),
    ensures
        0 <= i < servers.len(),
        plan_s(servers, cfg)[m] == (servers[i].0, resolved_for(cfg, servers[i].0, servers[i].1)),
    decreases servers.len(),
{
    let rest = plan_s(servers.drop_first(), cfg);
    if enabled_for(cfg, servers[0].0, servers[0].1) {
        if m == 0 {
            0
        } else {
            let j = lemma_plan_entry(servers.drop_first(), cfg, m - 1);
            j + 1
        }
    } else {
        let j = lemma_plan_entry(servers.drop_first(), cfg, m);
        j + 1
    }
}

/// The registry stays secret-free down to what agents get: for a registry
/// that passes `validate`, every server in any agent's plan, overrides
/// applied, passes the server check itself, so its environment and header
/// secrets are only `${NAME}` references.
pub proof fn law_plans_pass_server_checks(r: McpRegistryV, agent: Seq<char>)
    requires
        check_registry(r) is Ok,
        keys_unique(r.servers),
    ensures
        forall|m: int|
            0 <= m < plan_s(r.servers, lookup(r.agents, agent)).len() ==> check_server(
                #[trigger] plan_s(r.servers, lookup(r.agents, agent))[m].0,
                plan_s(r.servers, lookup(r.agents, agent))[m].1,
            ) is Ok,
{
    let cfg = lookup(r.agents, agent);
    let plan = plan_s(r.servers, cfg);
    assert forall|m: int| 0 <= m < plan.len() implies check_server(#[trigger] plan[m].0, plan[m].1) is Ok by {
        let i = lemma_plan_entry(r.servers, cfg, m);
        let name = r.servers[i].0;
        let server = r.servers[i].1;
        lemma_servers_pass(r.servers, i);
        if let Some(c) = cfg {
            let j = lemma_lookup_found(r.agents, agent);
            lemma_agents_pass(r.servers, r.agents, j);
            if lookup(c.overrides, name) is Some {
                let k = lemma_lookup_found(c.overrides, name);
                lemma_overrides_pass(r.servers, c.overrides, k);
                lemma_lookup_unique(r.servers, i);
            }
        }
    }
}

/// The value of the first entry of `s` with key `k`.
pub open spec fn lookup_p(s: Seq<(Seq<char>, Seq<char>)>, k: Seq<char>) -> Option<Seq<char>>
    decreases s.len(),
{
    if s.len() == 0 {
        None
    } else if s[0].0 == k {
        Some(s[0].1)
    } else {
        lookup_p(s.drop_first(), k)
    }
}

/// The value of the last entry of `s` with key `k`.
pub open spec fn last_p(s: Seq<(Seq<char>, Seq<char>)>, k: Seq<char>) -> Option<Seq<char>>
    decreases s.len(),
{
    if s.len() == 0 {
        None
    } else if s.last().0 == k {
        Some(s.last().1)
    } else {
        last_p(s.drop_last(), k)
    }
}

/// After inserting `(k, v)`, key `k` reads `v` and every other key reads as before.
proof fn lemma_insert_lookup(s: Seq<(Seq<char>, Seq<char>)>, k: Seq<char>, v: Seq<char>, j: Seq<char>)
    ensures
        lookup_p(insert_p(s, k, v), j) == if j == k {
            Some(v)
        } else {
            lookup_p(s, j)
        },
    decreases s.len(),
{
    let t = insert_p(s, k, v);
    if s.len() == 0 {
        assert(t == seq![(k, v)]);
        assert(t[0] == (k, v));
        assert(t.drop_first() =~= Seq::<(Seq<char>, Seq<char>)>::empty());
        assert(lookup_p(t.drop_first(), j) == None::<Seq<char>>);
    } else if s[0].0 == k {
        assert(t == seq![(k, v)] + s.drop_first());
        assert(t[0] == (k, v));
        assert(t.drop_first() =~= s.drop_first());
    } else if lt_s(k, s[0].0) {
        assert(t == seq![(k, v)] + s);
        assert(t[0] == (k, v));
        assert(t.drop_first() =~= s);
    } else {
        assert(t == seq![s[0]] + insert_p(s.drop_first(), k, v));
        assert(t[0] == s[0]);
        assert(t.drop_first() =~= insert_p(s.drop_first(), k, v));
        lemma_insert_lookup(s.drop_first(), k, v, j);
    }
}

/// After `extend_p(a, b)`, a key reads the last value `b` gives it, else its value in `a`.
proof fn lemma_extend_lookup(a: Seq<(Seq<char>, Seq<char>)>, b: Seq<(Seq<char>, Seq<char>)>, j: Seq<char>)
    ensures
        lookup_p(extend_p(a, b), j) == match last_p(b, j) {
            Some(v) => Some(v),
            None => lookup_p(a, j),
        },
    decreases b.len(),
{
    if b.len() > 0 {
        lemma_extend_lookup(a, b.drop_last(), j);
        lemma_insert_lookup(extend_p(a, b.drop_last()), b.last().0, b.last().1, j);
    }
}

/// An override wins wherever it says something, and the base server stands
/// elsewhere. An override that sets both a command and a URL is refused.
/// Otherwise: its command or URL replaces the base's way of reaching the
/// server (setting one clears the other); its arguments, environment keys,
/// tool list, working directory and transport replace the base's where it
/// has them; each secret reference it names reads its value, every other
/// one reads the base's; and the server stays on or off by default as the
/// base says.
pub proof fn law_override_wins(base: McpServerV, ov: McpServerOverrideV, k: Seq<char>)
    ensures
        (ov.command is Some && ov.url is Some) <==> apply_override_s(base, ov) is Err,
        apply_override_s(base, ov) matches Ok(s) ==> {
            &&& s.enabled_by_default == base.enabled_by_default
            &&& (ov.args matches Some(a) ==> s.args == a)
            &&& (ov.args is None ==> s.args == base.args)
            &&& (ov.env_keys matches Some(e) ==> s.env_keys == e)
            &&& (ov.env_keys is None ==> s.env_keys == base.env_keys)
            &&& (ov.tool_allow matches Some(t) ==> s.tool_allow == t)
            &&& (ov.tool_allow is None ==> s.tool_allow == base.tool_allow)
            &&& (ov.cwd is Some ==> s.cwd == ov.cwd)
            &&& (ov.cwd is None ==> s.cwd == base.cwd)
            &&& (ov.transport is Some ==> s.transport == ov.transport)
            &&& (ov.transport is None ==> s.transport == base.transport)
            &&& (ov.command is Some ==> s.command == ov.command && s.url is None)
            &&& (ov.url is Some ==> s.url == ov.url && s.command is None)
            &&& (ov.command is None && ov.url is None ==> s.command == base.command && s.url == base.url)
            &&& lookup_p(s.env_secret_refs, k) == match last_p(ov.env_secret_refs, k) {
                Some(v) => Some(v),
                None => lookup_p(base.env_secret_refs, k),
            }
            &&& lookup_p(s.header_secret_refs, k) == match last_p(ov.header_secret_refs, k) {
                Some(v) => Some(v),
                None => lookup_p(base.header_secret_refs, k),
            }
        },
{
    lemma_extend_lookup(base.env_secret_refs, ov.env_secret_refs, k);
    lemma_extend_lookup(base.header_secret_refs, ov.header_secret_refs, k);
}

} // verus!

//! MCP servers as the agents declare them natively, the registry entries
//! made from them, and the merged view of native and registry servers.
use vstd::prelude::*;
use crate::error::{HkError, HkErrorV};
use crate::registry::{
    check_registry, enabled_for, flags, lemma_lookup_agents, lemma_lookup_flags,
    lemma_lookup_servers, lookup, plan_s, AgentMcpConfig, McpRegistry,
    McpServer, McpServerV,
};
use crate::smap::{get_s, keys_increasing, StrMap};
use crate::text::{chars_of, debug_str, debug_text, dup_opt, dup_strs, lt_s, ostr, push_str, str_is, strs};

verus! {

/// How a client reaches an MCP server.
#[derive(Clone, Copy, PartialEq, Eq, Structural, Debug)]
pub enum McpTransport {
    Stdio,
    Http,
    Sse,
}

/// The name of a transport.
pub open spec fn transport_text(t: McpTransport) -> Seq<char> {
    match t {
        McpTransport::Stdio => "stdio"@,
        McpTransport::Http => "http"@,
        McpTransport::Sse => "sse"@,
    }
}

impl McpTransport {
    /// The name of this transport.
    pub fn as_str(&self) -> (s: &'static str)
        ensures
            s@ == transport_text(*self),
    {
        match self {
            McpTransport::Stdio => "stdio",
            McpTransport::Http => "http",
            McpTransport::Sse => "sse",
        }
    }
}

/// An MCP server as an agent's own config declares it.
pub struct McpServerEntry {
    pub name: String,
    pub command: String,
    pub args: Vec<String>,
    pub env: StrMap<String>,
    pub transport: McpTransport,
    pub url: Option<String>,
    pub headers: StrMap<String>,
    pub enabled: bool,
}

/// Keys of the entries of a string map, in order.
pub open spec fn key_list(s: Seq<(String, String)>) -> Seq<Seq<char>> {
    s.map_values(|e: (String, String)| e.0@)
}

/// The registry server adopted from a native entry: off by default, with
/// the entry's command (for stdio), arguments, URL and transport, and the
/// names of its environment variables but none of their values.
pub open spec fn registry_server_s(e: McpServerEntry) -> McpServerV {
    McpServerV {
        enabled_by_default: false,
        command: if e.transport == McpTransport::Stdio {
            Some(e.command@)
        } else {
            None
        },
        args: strs(e.args@),
        cwd: None,
        url: ostr(e.url),
        transport: Some(transport_text(e.transport)),
        env_keys: key_list(e.env.entries()),
        env_secret_refs: Seq::empty(),
        header_secret_refs: Seq::empty(),
        tool_allow: Seq::empty(),
    }
}

/// `registry_server`.
pub fn registry_server(entry: &McpServerEntry) -> (s: McpServer)
    ensures
        s@ == registry_server_s(*entry),
{
    let mut env_keys: Vec<String> = Vec::new();
    let mut i: usize = 0;
    while i < entry.env.len()
        invariant
            i <= entry.env.entries().len(),
            strs(env_keys@) == key_list(entry.env.entries()).take(i as int),
        decreases entry.env.entries().len() - i,
    {
        let k = entry.env.key_at(i).clone();
        proof {
            assert(key_list(entry.env.entries()).take(i + 1) =~= key_list(entry.env.entries()).take(
                i as int,
            ).push(k@));
        }
        let ghost before = env_keys@;
        env_keys.push(k);
        proof {
            assert(strs(env_keys@) =~= strs(before).push(k@));
        }
        i += 1;
    }
    proof {
        assert(key_list(entry.env.entries()).take(entry.env.entries().len() as int) =~= key_list(
            entry.env.entries(),
        ));
    }
    let s = McpServer {
        enabled_by_default: false,
        command: if entry.transport == McpTransport::Stdio {
            Some(entry.command.clone())
        } else {
            None
        },
        args: dup_strs(&entry.args),
        cwd: None,
        url: dup_opt(&entry.url),
        transport: Some(entry.transport.as_str().to_owned()),
        env_keys,
        env_secret_refs: StrMap::new(),
        header_secret_refs: StrMap::new(),
        tool_allow: Vec::new(),
    };
    proof {
        assert(strs(s.tool_allow@) =~= Seq::<Seq<char>>::empty());
        assert(crate::registry::pairs(s.env_secret_refs.entries()) =~= Seq::<
            (Seq<char>, Seq<char>),
        >::empty());
        assert(crate::registry::pairs(s.header_secret_refs.entries()) =~= Seq::<
            (Seq<char>, Seq<char>),
        >::empty());
    }
    s
}

/// The agents whose brains are managed, in display order.
pub open spec fn is_brain_agent(a: Seq<char>) -> bool {
    a == "codex"@ || a == "hermes"@ || a == "openclaw"@
}

/// Each entry of `es`, paired with the agent that declares it.
pub open spec fn tag_s(agent: Seq<char>, es: Seq<McpServerEntry>) -> Seq<(Seq<char>, McpServerEntry)> {
    es.map_values(|e: McpServerEntry| (agent, e))
}

/// All native entries, agent by agent, each paired with its agent.
pub open spec fn flat_s(ads: Seq<(String, Vec<McpServerEntry>)>) -> Seq<(Seq<char>, McpServerEntry)>
    decreases ads.len(),
{
    if ads.len() == 0 {
        Seq::empty()
    } else {
        flat_s(ads.drop_last()) + tag_s(ads.last().0@, ads.last().1@)
    }
}

/// Some native entry is named `n`.
pub open spec fn in_found(f: Seq<(Seq<char>, McpServerEntry)>, n: Seq<char>) -> bool {
    exists|i: int| 0 <= i < f.len() && #[trigger] f[i].1.name@ == n
}

/// The transport of the first native entry named `n`.
pub open spec fn first_transport(f: Seq<(Seq<char>, McpServerEntry)>, n: Seq<char>) -> Option<
    McpTransport,
>
    decreases f.len(),
{
    if f.len() == 0 {
        None
    } else {
        match first_transport(f.drop_last(), n) {
            Some(t) => Some(t),
            None => if f.last().1.name@ == n {
                Some(f.last().1.transport)
            } else {
                None
            },
        }
    }
}

/// Whether `agent`'s own config enables server `n`: its last entry of that name decides.
pub open spec fn native_flag(f: Seq<(Seq<char>, McpServerEntry)>, agent: Seq<char>, n: Seq<char>) -> Option<
    bool,
>
    decreases f.len(),
{
    if f.len() == 0 {
        None
    } else if f.last().0 == agent && f.last().1.name@ == n {
        Some(f.last().1.enabled)
    } else {
        native_flag(f.drop_last(), agent, n)
    }
}

/// The registry server named `n`.
pub open spec fn reg_server(reg: Option<McpRegistry>, n: Seq<char>) -> Option<McpServer> {
    match reg {
        Some(r) => get_s(r.servers.entries(), n),
        None => None,
    }
}

/// The registry's flag for server `n` and `agent`.
pub open spec fn reg_flag(r: McpRegistry, agent: Seq<char>, n: Seq<char>) -> Option<bool> {
    match get_s(r.agents.entries(), agent) {
        Some(c) => get_s(c.enabled.entries(), n),
        None => None,
    }
}

/// Whether the merged view shows server `n` on for `agent`: for a registry
/// server, the registry's flag, else the native flag, else the server's
/// default; for a native-only server, the native flag, else off.
pub open spec fn view_flag(
    f: Seq<(Seq<char>, McpServerEntry)>,
    reg: Option<McpRegistry>,
    n: Seq<char>,
    agent: Seq<char>,
) -> bool {
    match reg_server(reg, n) {
        Some(s) => match reg_flag(reg->0, agent, n) {
            Some(b) => b,
            None => match native_flag(f, agent, n) {
                Some(b) => b,
                None => s.enabled_by_default,
            },
        },
        None => match native_flag(f, agent, n) {
            Some(b) => b,
            None => false,
        },
    }
}

/// The transport shown for server `n`: a registry server's URL makes it
/// HTTP, else stdio; a native-only server keeps the first native transport.
pub open spec fn view_transport(f: Seq<(Seq<char>, McpServerEntry)>, reg: Option<McpRegistry>, n: Seq<char>) -> McpTransport {
    match reg_server(reg, n) {
        Some(s) => if s.url is Some {
            McpTransport::Http
        } else {
            McpTransport::Stdio
        },
        None => first_transport(f, n)->0,
    }
}

/// One row of the merged MCP view.
pub struct McpRegistryView {
    pub id: String,
    pub name: String,
    pub description: String,
    pub transport: String,
    pub agents: StrMap<bool>,
    pub status: String,
}

/// Whether `v` is the row the merged view shows for server `n`.
pub open spec fn row_is(
    v: McpRegistryView,
    f: Seq<(Seq<char>, McpServerEntry)>,
    reg: Option<McpRegistry>,
    n: Seq<char>,
) -> bool {
    let fc = view_flag(f, reg, n, "codex"@);
    let fh = view_flag(f, reg, n, "hermes"@);
    let fo = view_flag(f, reg, n, "openclaw"@);
    &&& v.id@ == n
    &&& v.name@ == n
    &&& v.description@ == if reg_server(reg, n) is Some {
        "Managed by the central secret-free registry"@
    } else {
        "Discovered in native config; adopt before cross-agent deployment"@
    }
    &&& v.transport@ == transport_text(view_transport(f, reg, n))
    &&& v.agents@ == Map::<Seq<char>, bool>::empty().insert("codex"@, fc).insert("hermes"@, fh).insert(
        "openclaw"@,
        fo,
    )
    &&& v.status@ == if fc || fh || fo {
        "configured"@
    } else {
        "disabled"@
    }
}

/// Server `n` appears natively or in the registry.
pub open spec fn listed(f: Seq<(Seq<char>, McpServerEntry)>, reg: Option<McpRegistry>, n: Seq<char>) -> bool {
    in_found(f, n) || reg_server(reg, n) is Some
}

/// A merge row while it is built: the first native transport and each agent's native flag.
pub type Row = (McpTransport, Option<bool>, Option<bool>, Option<bool>);

/// The native flag of `agent` in a row being built.
pub open spec fn slot_of(r: Row, agent: Seq<char>) -> Option<bool> {
    if agent == "codex"@ {
        r.1
    } else if agent == "hermes"@ {
        r.2
    } else {
        r.3
    }
}

/// Whether `r` is the row built from the native entries `f` for server `n`.
pub open spec fn row_from(r: Row, f: Seq<(Seq<char>, McpServerEntry)>, n: Seq<char>) -> bool {
    &&& (in_found(f, n) ==> first_transport(f, n) == Some(r.0))
    &&& r.1 == native_flag(f, "codex"@, n)
    &&& r.2 == native_flag(f, "hermes"@, n)
    &&& r.3 == native_flag(f, "openclaw"@, n)
}

/// A name no entry has has no flag and no transport.
proof fn lemma_absent(f: Seq<(Seq<char>, McpServerEntry)>, n: Seq<char>)
    requires
        !in_found(f, n),
    ensures
        first_transport(f, n) is None,
        forall|a: Seq<char>| native_flag(f, a, n) is None,
    decreases f.len(),
{
    if f.len() > 0 {
        assert(!in_found(f.drop_last(), n)) by {
            if in_found(f.drop_last(), n) {
                let i = choose|i: int| 0 <= i < f.drop_last().len() && #[trigger] f.drop_last()[i].1.name@ == n;
                assert(f[i] == f.drop_last()[i]);
            }
        }
        assert(f[f.len() - 1].1.name@ != n);
        lemma_absent(f.drop_last(), n);
        assert forall|a: Seq<char>| native_flag(f, a, n) is None by {
            assert(f.last().1.name@ != n);
            assert(native_flag(f.drop_last(), a, n) is None);
        }
    }
}

/// A name that an entry has has a first transport.
proof fn lemma_present(f: Seq<(Seq<char>, McpServerEntry)>, n: Seq<char>)
    requires
        in_found(f, n),
    ensures
        first_transport(f, n) is Some,
    decreases f.len(),
{
    let i = choose|i: int| 0 <= i < f.len() && #[trigger] f[i].1.name@ == n;
    if i < f.len() - 1 {
        assert(f.drop_last()[i] == f[i]);
        lemma_present(f.drop_last(), n);
    }
}

/// `flat_s` grows by one agent's entries at a time.
proof fn lemma_flat_step(ads: Seq<(String, Vec<McpServerEntry>)>, i: int)
    requires
        0 <= i < ads.len(),
    ensures
        flat_s(ads.take(i + 1)) == flat_s(ads.take(i)) + tag_s(ads[i].0@, ads[i].1@),
{
    assert(ads.take(i + 1).drop_last() =~= ads.take(i));
}

/// The row for `name` after one more entry (of `agent`, with flag `en` and
/// transport `t`) is taken in.
fn row_update(row: Option<Row>, agent: &str, t: McpTransport, en: bool) -> (r: Row)
    requires
        is_brain_agent(agent@),
    ensures
        r.0 == match row {
            Some(x) => x.0,
            None => t,
        },
        forall|a: Seq<char>|
            is_brain_agent(a) ==> #[trigger] slot_of(r, a) == if a == agent@ {
                Some(en)
            } else {
                match row {
                    Some(x) => slot_of(x, a),
                    None => None,
                }
            },
{
    let base: Row = match row {
        Some(x) => x,
        None => (t, None, None, None),
    };
    if crate::text::str_is(agent, "codex") {
        (base.0, Some(en), base.2, base.3)
    } else if crate::text::str_is(agent, "hermes") {
        (base.0, base.1, Some(en), base.3)
    } else {
        (base.0, base.1, base.2, Some(en))
    }
}

/// The agent names are distinct.
pub proof fn lemma_agents_distinct()
    ensures
        "codex"@ != "hermes"@,
        "codex"@ != "openclaw"@,
        "hermes"@ != "openclaw"@,
{
    reveal_strlit("codex");
    reveal_strlit("hermes");
    reveal_strlit("openclaw");
    assert("codex"@[0] != "hermes"@[0]);
    assert("codex"@[0] != "openclaw"@[0]);
    assert("hermes"@[0] != "openclaw"@[0]);
}

/// A row stays right for a name that the new entry does not have.
proof fn lemma_row_other(x: Row, fj: Seq<(Seq<char>, McpServerEntry)>, last: (Seq<char>, McpServerEntry), n: Seq<char>)
    requires
        row_from(x, fj, n),
        last.1.name@ != n,
    ensures
        row_from(x, fj.push(last), n),
{
    let fk = fj.push(last);
    assert(fk.drop_last() =~= fj);
    if in_found(fk, n) {
        let q = choose|q: int| 0 <= q < fk.len() && #[trigger] fk[q].1.name@ == n;
        assert(fj[q] == fk[q]);
    }
}

/// One more entry sets its agent's flag for its name.
proof fn lemma_flag_step(
    fj: Seq<(Seq<char>, McpServerEntry)>,
    agent: Seq<char>,
    e: McpServerEntry,
    a: Seq<char>,
)
    ensures
        native_flag(fj.push((agent, e)), a, e.name@) == if a == agent {
            Some(e.enabled)
        } else {
            native_flag(fj, a, e.name@)
        },
{
    let fk = fj.push((agent, e));
    assert(fk.drop_last() =~= fj);
    assert(fk.last() == (agent, e));
}

/// The row of the name the new entry has takes in its transport and flag.
proof fn lemma_row_same(
    found: Option<Row>,
    r: Row,
    fj: Seq<(Seq<char>, McpServerEntry)>,
    agent: Seq<char>,
    e: McpServerEntry,
)
    requires
        is_brain_agent(agent),
        "codex"@ != "hermes"@ && "codex"@ != "openclaw"@ && "hermes"@ != "openclaw"@,
        found matches Some(x) ==> row_from(x, fj, e.name@) && in_found(fj, e.name@),
        found is None ==> !in_found(fj, e.name@),
        r.0 == match found {
            Some(x) => x.0,
            None => e.transport,
        },
        forall|a: Seq<char>|
            is_brain_agent(a) ==> #[trigger] slot_of(r, a) == if a == agent {
                Some(e.enabled)
            } else {
                match found {
                    Some(x) => slot_of(x, a),
                    None => None,
                }
            },
    ensures
        row_from(r, fj.push((agent, e)), e.name@),
{
    let fk = fj.push((agent, e));
    let n = e.name@;
    assert(fk.drop_last() =~= fj);
    assert(fk.last() == (agent, e));
    if found is Some {
        lemma_present(fj, n);
    } else {
        lemma_absent(fj, n);
    }
    assert(slot_of(r, "codex"@) == r.1);
    assert(slot_of(r, "hermes"@) == r.2);
    assert(slot_of(r, "openclaw"@) == r.3);
    if let Some(x) = found {
        assert(slot_of(x, "codex"@) == x.1);
        assert(slot_of(x, "hermes"@) == x.2);
        assert(slot_of(x, "openclaw"@) == x.3);
    }
    lemma_flag_step(fj, agent, e, "codex"@);
    lemma_flag_step(fj, agent, e, "hermes"@);
    lemma_flag_step(fj, agent, e, "openclaw"@);
    assert(native_flag(fk, "codex"@, n) == r.1);
    assert(native_flag(fk, "hermes"@, n) == r.2);
    assert(native_flag(fk, "openclaw"@, n) == r.3);
    assert(first_transport(fk, n) == Some(r.0));
}

/// `snapshot_mcp`: merges the servers each agent declares natively (one list
/// per agent, in the order given) with the registry, if there is one. The
/// rows come in name order, one per server named natively or in the registry.
pub fn snapshot_mcp(
    adapters: &Vec<(String, Vec<McpServerEntry>)>,
    registry: &Option<McpRegistry>,
) -> (out: Vec<McpRegistryView>)
    requires
        forall|i: int| 0 <= i < adapters@.len() ==> is_brain_agent(#[trigger] adapters@[i].0@),
    ensures
        forall|i: int, j: int|
            0 <= i < j < out@.len() ==> crate::text::lt_s(#[trigger] out@[i].name@, #[trigger] out@[j].name@),
        forall|i: int|
            0 <= i < out@.len() ==> listed(flat_s(adapters@), *registry, #[trigger] out@[i].name@)
                && row_is(out@[i], flat_s(adapters@), *registry, out@[i].name@),
        forall|n: Seq<char>|
            listed(flat_s(adapters@), *registry, n) ==> exists|i: int|
                0 <= i < out@.len() && #[trigger] out@[i].name@ == n,
{
    proof {
        lemma_agents_distinct();
    }
    let ghost all = flat_s(adapters@);
    let mut rows: StrMap<Row> = StrMap::new();
    let mut i: usize = 0;
    proof {
        assert(adapters@.take(0) =~= Seq::<(String, Vec<McpServerEntry>)>::empty());
    }
    while i < adapters.len()
        invariant
            i <= adapters@.len(),
            forall|k: int| 0 <= k < adapters@.len() ==> is_brain_agent(#[trigger] adapters@[k].0@),
            "codex"@ != "hermes"@ && "codex"@ != "openclaw"@ && "hermes"@ != "openclaw"@,
            forall|n: Seq<char>|
                #[trigger] rows@.dom().contains(n) <==> in_found(flat_s(adapters@.take(i as int)), n),
            forall|n: Seq<char>|
                #[trigger] rows@.dom().contains(n) ==> row_from(
                    rows@[n],
                    flat_s(adapters@.take(i as int)),
                    n,
                ),
        decreases adapters@.len() - i,
    {
        let agent = &adapters[i].0;
        let entries = &adapters[i].1;
        let ghost f0 = flat_s(adapters@.take(i as int));
        let mut j: usize = 0;
        proof {
            assert(tag_s(agent@, entries@).take(0) =~= Seq::<(Seq<char>, McpServerEntry)>::empty());
            assert(f0 + tag_s(agent@, entries@).take(0) =~= f0);
        }
        while j < entries.len()
            invariant
                j <= entries@.len(),
                is_brain_agent(agent@),
                "codex"@ != "hermes"@ && "codex"@ != "openclaw"@ && "hermes"@ != "openclaw"@,
                forall|n: Seq<char>|
                    #[trigger] rows@.dom().contains(n) <==> in_found(
                        f0 + tag_s(agent@, entries@).take(j as int),
                        n,
                    ),
                forall|n: Seq<char>|
                    #[trigger] rows@.dom().contains(n) ==> row_from(
                        rows@[n],
                        f0 + tag_s(agent@, entries@).take(j as int),
                        n,
                    ),
            decreases entries@.len() - j,
        {
            let e = &entries[j];
            let ghost fj = f0 + tag_s(agent@, entries@).take(j as int);
            let ghost fk = f0 + tag_s(agent@, entries@).take(j + 1);
            proof {
                assert(fk =~= fj.push((agent@, *e)));
                assert(fk.drop_last() =~= fj);
                assert(fk.last() == (agent@, *e));
            }
            let found = match rows.get(e.name.as_str()) {
                Some(r) => Some(*r),
                None => None,
            };
            let r = row_update(found, agent.as_str(), e.transport, e.enabled);
            let ghost before = rows@;
            rows.insert(e.name.clone(), r);
            proof {
                assert forall|n: Seq<char>| #[trigger] rows@.dom().contains(n) <==> in_found(fk, n) by {
                    if in_found(fk, n) && n != e.name@ {
                        let q = choose|q: int| 0 <= q < fk.len() && #[trigger] fk[q].1.name@ == n;
                        assert(q < fj.len());
                        assert(fj[q] == fk[q]);
                    }
                    if in_found(fj, n) {
                        let q = choose|q: int| 0 <= q < fj.len() && #[trigger] fj[q].1.name@ == n;
                        assert(fk[q] == fj[q]);
                    }
                    assert(fk[fj.len() as int].1.name@ == e.name@);
                }
                assert forall|n: Seq<char>| #[trigger] rows@.dom().contains(n) implies row_from(
                    rows@[n],
                    fk,
                    n,
                ) by {
                    if n == e.name@ {
                        if before.dom().contains(n) {
                            assert(found == Some(before[n]));
                        }
                        lemma_row_same(found, r, fj, agent@, *e);
                    } else {
                        assert(before.dom().contains(n));
                        lemma_row_other(before[n], fj, (agent@, *e), n);
                    }
                }
            }
            j += 1;
        }
        proof {
            assert(tag_s(agent@, entries@).take(entries@.len() as int) =~= tag_s(agent@, entries@));
            lemma_flat_step(adapters@, i as int);
        }
        i += 1;
    }
    proof {
        assert(adapters@.take(adapters@.len() as int) =~= adapters@);
    }
    if let Some(reg) = registry {
        let mut k: usize = 0;
        proof {
            use_type_invariant(&reg.servers);
            reg.servers.lemma_inv();
        }
        while k < reg.servers.len()
            invariant
                k <= reg.servers.entries().len(),
                *registry == Some(*reg),
                all == flat_s(adapters@),
                keys_increasing(reg.servers.entries()),
                forall|n: Seq<char>|
                    #[trigger] rows@.dom().contains(n) <==> (in_found(all, n) || exists|m: int|
                        0 <= m < k && #[trigger] reg.servers.entries()[m].0@ == n),
                forall|n: Seq<char>| #[trigger] rows@.dom().contains(n) ==> row_from(rows@[n], all, n),
            decreases reg.servers.entries().len() - k,
        {
            let name = reg.servers.key_at(k);
            if !rows.contains_key(name.as_str()) {
                proof {
                    assert(!rows@.dom().contains(name@));
                    lemma_absent(all, name@);
                }
                rows.insert(name.clone(), (McpTransport::Stdio, None, None, None));
            }
            proof {
                assert forall|n: Seq<char>| #[trigger] rows@.dom().contains(n) <==> (in_found(all, n)
                    || exists|m: int| 0 <= m < k + 1 && #[trigger] reg.servers.entries()[m].0@ == n) by {
                    if n == name@ {
                        assert(reg.servers.entries()[k as int].0@ == n);
                    }
                }
            }
            k += 1;
        }
        proof {
            assert forall|n: Seq<char>| #[trigger] rows@.dom().contains(n) implies listed(all, *registry, n) by {
                if !in_found(all, n) {
                    let m = choose|m: int| 0 <= m < k && #[trigger] reg.servers.entries()[m].0@ == n;
                    crate::smap::lemma_get_at(reg.servers.entries(), m);
                }
            }
        }
    } else {
        proof {
            assert forall|n: Seq<char>| #[trigger] rows@.dom().contains(n) implies listed(all, *registry, n) by {}
        }
    }
    let mut out: Vec<McpRegistryView> = Vec::new();
    let mut p: usize = 0;
    proof {
        use_type_invariant(&rows);
        rows.lemma_inv();
    }
    while p < rows.len()
        invariant
            p <= rows.entries().len(),
            out@.len() == p,
            all == flat_s(adapters@),
            keys_increasing(rows.entries()),
            "codex"@ != "hermes"@ && "codex"@ != "openclaw"@ && "hermes"@ != "openclaw"@,
            forall|n: Seq<char>| #[trigger] rows@.dom().contains(n) ==> row_from(rows@[n], all, n),
            forall|n: Seq<char>| #[trigger] rows@.dom().contains(n) ==> listed(all, *registry, n),
            forall|q: int|
                0 <= q < p ==> #[trigger] out@[q].name@ == rows.entries()[q].0@ && row_is(
                    out@[q],
                    all,
                    *registry,
                    out@[q].name@,
                ),
        decreases rows.entries().len() - p,
    {
        let name = rows.key_at(p);
        let row = *rows.value_at(p);
        proof {
            crate::smap::lemma_get_at(rows.entries(), p as int);
            assert(rows@.dom().contains(name@));
            assert(rows@[name@] == row);
        }
        let v = merged_row(name, row, registry);
        proof {
            assert(row_is(v, all, *registry, name@)) by {
                assert(slot_of(row, "codex"@) == row.1);
                assert(slot_of(row, "hermes"@) == row.2);
                assert(slot_of(row, "openclaw"@) == row.3);
                if reg_server(*registry, name@) is None {
                    assert(in_found(all, name@));
                }
            }
        }
        out.push(v);
        p += 1;
    }
    proof {
        assert forall|n: Seq<char>| listed(all, *registry, n) implies exists|q: int|
            0 <= q < out@.len() && #[trigger] out@[q].name@ == n by {
            assert(rows@.dom().contains(n)) by {
                if !in_found(all, n) {
                    let r = registry->0;
                    if !(exists|m: int| 0 <= m < r.servers.entries().len() && #[trigger] r.servers.entries()[m].0@ == n) {
                        crate::smap::lemma_get_absent(r.servers.entries(), n);
                    }
                }
            }
            crate::smap::lemma_get_found(rows.entries(), n);
            let q = choose|q: int| 0 <= q < rows.entries().len() && rows.entries()[q].0@ == n && rows.entries()[q].1 == get_s(rows.entries(), n)->0;
            assert(out@[q].name@ == rows.entries()[q].0@);
        }
        assert forall|q: int| 0 <= q < out@.len() implies listed(
            flat_s(adapters@),
            *registry,
            #[trigger] out@[q].name@,
        ) && row_is(out@[q], flat_s(adapters@), *registry, out@[q].name@) by {
            crate::smap::lemma_get_at(rows.entries(), q);
            assert(rows@.dom().contains(rows.entries()[q].0@));
        }
        assert forall|a: int, b: int| 0 <= a < b < out@.len() implies crate::text::lt_s(
            #[trigger] out@[a].name@,
            #[trigger] out@[b].name@,
        ) by {
            assert(crate::text::lt_s(rows.entries()[a].0@, rows.entries()[b].0@));
        }
    }
    out
}

/// The final row for server `name`, given its native row.
fn merged_row(name: &String, row: Row, registry: &Option<McpRegistry>) -> (v: McpRegistryView)
    requires
        "codex"@ != "hermes"@ && "codex"@ != "openclaw"@ && "hermes"@ != "openclaw"@,
    ensures
        forall|f: Seq<(Seq<char>, McpServerEntry)>|
            row_from(row, f, name@) && (reg_server(*registry, name@) is None ==> in_found(f, name@))
                ==> #[trigger] row_is(v, f, *registry, name@),
{
    let server: Option<&McpServer> = match registry {
        Some(r) => r.servers.get(name.as_str()),
        None => None,
    };
    let fc = merged_flag(name, row.1, server, registry, "codex");
    let fh = merged_flag(name, row.2, server, registry, "hermes");
    let fo = merged_flag(name, row.3, server, registry, "openclaw");
    let transport = match server {
        Some(s) => if s.url.is_some() {
            McpTransport::Http
        } else {
            McpTransport::Stdio
        },
        None => row.0,
    };
    let mut agents: StrMap<bool> = StrMap::new();
    agents.insert("codex".to_owned(), fc);
    agents.insert("hermes".to_owned(), fh);
    agents.insert("openclaw".to_owned(), fo);
    proof {
        assert(agents@ =~= Map::<Seq<char>, bool>::empty().insert("codex"@, fc).insert("hermes"@, fh).insert(
            "openclaw"@,
            fo,
        ));
    }
    McpRegistryView {
        id: name.clone(),
        name: name.clone(),
        description: if server.is_some() {
            "Managed by the central secret-free registry".to_owned()
        } else {
            "Discovered in native config; adopt before cross-agent deployment".to_owned()
        },
        transport: transport.as_str().to_owned(),
        agents,
        status: if fc || fh || fo {
            "configured".to_owned()
        } else {
            "disabled".to_owned()
        },
    }
}

/// One agent's flag in the final row.
fn merged_flag(
    name: &String,
    native: Option<bool>,
    server: Option<&McpServer>,
    registry: &Option<McpRegistry>,
    agent: &str,
) -> (b: bool)
    requires
        match server {
            Some(s) => reg_server(*registry, name@) == Some(*s),
            None => reg_server(*registry, name@) is None,
        },
    ensures
        forall|f: Seq<(Seq<char>, McpServerEntry)>|
            native_flag(f, agent@, name@) == native ==> #[trigger] view_flag(f, *registry, name@, agent@) == b,
{
    match server {
        Some(s) => {
            let r = match registry {
                Some(r) => r,
                None => {
                    return false;
                },
            };
            let flag = match r.agents.get(agent) {
                Some(c) => match c.enabled.get(name.as_str()) {
                    Some(b) => Some(*b),
                    None => None,
                },
                None => None,
            };
            match flag {
                Some(b) => b,
                None => match native {
                    Some(b) => b,
                    None => s.enabled_by_default,
                },
            }
        },
        None => match native {
            Some(b) => b,
            None => false,
        },
    }
}

/// The first native entry named `n`.
pub open spec fn first_entry(f: Seq<(Seq<char>, McpServerEntry)>, n: Seq<char>) -> Option<McpServerEntry>
    decreases f.len(),
{
    if f.len() == 0 {
        None
    } else {
        match first_entry(f.drop_last(), n) {
            Some(e) => Some(e),
            None => if f.last().1.name@ == n {
                Some(f.last().1)
            } else {
                None
            },
        }
    }
}

/// The first native entry named `n`, searching agent by agent.
fn find_entry<'a>(adapters: &'a Vec<(String, Vec<McpServerEntry>)>, n: &str) -> (r: Option<&'a McpServerEntry>)
    ensures
        match r {
            Some(e) => first_entry(flat_s(adapters@), n@) == Some(*e),
            None => first_entry(flat_s(adapters@), n@) is None,
        },
{
    let mut i: usize = 0;
    proof {
        assert(adapters@.take(0) =~= Seq::<(String, Vec<McpServerEntry>)>::empty());
    }
    while i < adapters.len()
        invariant
            i <= adapters@.len(),
            first_entry(flat_s(adapters@.take(i as int)), n@) is None,
        decreases adapters@.len() - i,
    {
        let agent = &adapters[i].0;
        let entries = &adapters[i].1;
        let ghost f0 = flat_s(adapters@.take(i as int));
        let mut j: usize = 0;
        proof {
            assert(f0 + tag_s(agent@, entries@).take(0) =~= f0);
        }
        while j < entries.len()
            invariant
                j <= entries@.len(),
                first_entry(f0 + tag_s(agent@, entries@).take(j as int), n@) is None,
                f0 == flat_s(adapters@.take(i as int)),
                i < adapters@.len(),
                *agent == adapters@[i as int].0,
                *entries == adapters@[i as int].1,
            decreases entries@.len() - j,
        {
            let ghost fj = f0 + tag_s(agent@, entries@).take(j as int);
            let ghost fk = f0 + tag_s(agent@, entries@).take(j + 1);
            proof {
                assert(fk =~= fj.push((agent@, entries@[j as int])));
                assert(fk.drop_last() =~= fj);
            }
            if str_is(entries[j].name.as_str(), n) {
                proof {
                    assert(fk.last() == (agent@, entries@[j as int]));
                    assert(first_entry(fk, n@) == Some(entries@[j as int]));
                    lemma_first_entry_extend(fk, adapters@, i as int, j as int + 1);
                }
                return Some(&entries[j]);
            }
            j += 1;
        }
        proof {
            assert(tag_s(agent@, entries@).take(entries@.len() as int) =~= tag_s(agent@, entries@));
            lemma_flat_step(adapters@, i as int);
        }
        i += 1;
    }
    proof {
        assert(adapters@.take(adapters@.len() as int) =~= adapters@);
    }
    None
}

/// A first match in a prefix of the entries is the first match in all of them.
proof fn lemma_first_entry_extend(
    fk: Seq<(Seq<char>, McpServerEntry)>,
    ads: Seq<(String, Vec<McpServerEntry>)>,
    i: int,
    j: int,
)
    requires
        0 <= i < ads.len(),
        0 <= j <= ads[i].1@.len(),
        fk == flat_s(ads.take(i)) + tag_s(ads[i].0@, ads[i].1@).take(j),
    ensures
        forall|n: Seq<char>| first_entry(fk, n) is Some ==> first_entry(flat_s(ads), n) == first_entry(fk, n),
    decreases ads.len() - i, ads[i].1@.len() - j,
{
    let full = flat_s(ads.take(i)) + tag_s(ads[i].0@, ads[i].1@);
    if j < ads[i].1@.len() {
        let fk2 = flat_s(ads.take(i)) + tag_s(ads[i].0@, ads[i].1@).take(j + 1);
        assert(fk2.drop_last() =~= fk);
        lemma_first_entry_extend(fk2, ads, i, j + 1);
        assert forall|n: Seq<char>| first_entry(fk, n) is Some implies first_entry(fk2, n) == first_entry(fk, n) by {}
    } else {
        assert(tag_s(ads[i].0@, ads[i].1@).take(j) =~= tag_s(ads[i].0@, ads[i].1@));
        lemma_flat_step(ads, i);
        if i + 1 < ads.len() {
            let fk2 = flat_s(ads.take(i + 1)) + tag_s(ads[i + 1].0@, ads[i + 1].1@).take(0);
            assert(fk2 =~= fk);
            lemma_first_entry_extend(fk2, ads, i + 1, 0);
        } else {
            assert(ads.take(i + 1) =~= ads);
            assert(fk == flat_s(ads));
        }
    }
}

/// How the registry changes when `apply_mcp_toggle` sets server `server`
/// for `agent`: a server that is not in the registry yet is adopted from
/// the native entry `adopted`; the agent's flag for the server becomes
/// `enabled`; nothing else changes.
pub open spec fn toggled(
    old: McpRegistry,
    new: McpRegistry,
    server: Seq<char>,
    agent: Seq<char>,
    enabled: bool,
    adopted: Option<McpServerEntry>,
) -> bool {
    &&& new.version == old.version
    &&& old.servers@.dom().contains(server) ==> new.servers@ == old.servers@
    &&& !old.servers@.dom().contains(server) ==> {
        &&& adopted is Some
        &&& new.servers@.dom() == old.servers@.dom().insert(server)
        &&& forall|n: Seq<char>| n != server && #[trigger] old.servers@.dom().contains(n) ==> new.servers@[n] == old.servers@[n]
        &&& new.servers@[server]@ == registry_server_s(adopted->0)
    }
    &&& new.agents@.dom() == old.agents@.dom().insert(agent)
    &&& forall|a: Seq<char>| a != agent && #[trigger] old.agents@.dom().contains(a) ==> new.agents@[a] == old.agents@[a]
    &&& new.agents@[agent].enabled@ == if old.agents@.dom().contains(agent) {
        old.agents@[agent].enabled@
    } else {
        Map::<Seq<char>, bool>::empty()
    }.insert(server, enabled)
    &&& new.agents@[agent].overrides@ == if old.agents@.dom().contains(agent) {
        old.agents@[agent].overrides@
    } else {
        Map::empty()
    }
}

/// The registry step of `apply_mcp_toggle`: the agent must be one of the
/// managed agents; a server missing from the registry is adopted from the
/// first native entry of that name; the agent's flag is set; the result must
/// pass `McpRegistry::validate`.
pub fn toggle_registry(
    registry: McpRegistry,
    server: &str,
    agent: &str,
    enabled: bool,
    adapters: &Vec<(String, Vec<McpServerEntry>)>,
) -> (r: Result<McpRegistry, HkError>)
    ensures
        !is_brain_agent(agent@) ==> (r matches Err(e) && e@ == HkErrorV::NotFound("agent "@ + agent@)),
        is_brain_agent(agent@) && !registry.servers@.dom().contains(server@) && first_entry(
            flat_s(adapters@),
            server@,
        ) is None ==> (r matches Err(e) && e@ == HkErrorV::NotFound(
            "MCP server "@ + debug_text(server@) + " is not in the registry or native configs"@,
        )),
        r matches Ok(x) ==> toggled(
            registry,
            x,
            server@,
            agent@,
            enabled,
            first_entry(flat_s(adapters@), server@),
        ) && check_registry(x@) is Ok,
        is_brain_agent(agent@) && (registry.servers@.dom().contains(server@) || first_entry(
            flat_s(adapters@),
            server@,
        ) is Some) ==> match r {
            Ok(_) => true,
            Err(e) => exists|x: McpRegistry|
                toggled(registry, x, server@, agent@, enabled, first_entry(flat_s(adapters@), server@))
                    && (#[trigger] check_registry(x@) matches Err(m) && e@ == HkErrorV::Validation(m)),
        },
{
    if !(str_is(agent, "codex") || str_is(agent, "hermes") || str_is(agent, "openclaw")) {
        let mut m = "agent ".to_owned();
        push_str(&mut m, agent);
        return Err(HkError::NotFound(m));
    }
    let ghost old = registry;
    let mut registry = registry;
    if !registry.servers.contains_key(server) {
        match find_entry(adapters, server) {
            None => {
                let mut m = "MCP server ".to_owned();
                let d = debug_str(server);
                push_str(&mut m, d.as_str());
                push_str(&mut m, " is not in the registry or native configs");
                return Err(HkError::NotFound(m));
            },
            Some(e) => {
                let s = registry_server(e);
                registry.servers.insert(server.to_owned(), s);
            },
        }
    }
    let mut cfg = match registry.agents.remove(agent) {
        Some(c) => c,
        None => AgentMcpConfig::empty(),
    };
    proof {
        assert(cfg.enabled@ =~= if old.agents@.dom().contains(agent@) {
            old.agents@[agent@].enabled@
        } else {
            Map::<Seq<char>, bool>::empty()
        });
        assert(cfg.overrides@ =~= if old.agents@.dom().contains(agent@) {
            old.agents@[agent@].overrides@
        } else {
            Map::empty()
        });
    }
    cfg.enabled.insert(server.to_owned(), enabled);
    registry.agents.insert(agent.to_owned(), cfg);
    proof {
        assert(registry.agents@.dom() =~= old.agents@.dom().insert(agent@));
        if !old.servers@.dom().contains(server@) {
            assert(registry.servers@.dom() =~= old.servers@.dom().insert(server@));
        }
    }
    match registry.validate() {
        Ok(()) => Ok(registry),
        Err(m) => Err(HkError::Validation(m)),
    }
}

/// Some entry of `s` has key `n`.
pub open spec fn has_name<V>(s: Seq<(Seq<char>, V)>, n: Seq<char>) -> bool {
    exists|i: int| 0 <= i < s.len() && #[trigger] s[i].0 == n
}

/// Every key of a plan is a key of the servers it was made from.
proof fn lemma_plan_keys(servers: Seq<(Seq<char>, McpServerV)>, cfg: Option<crate::registry::AgentMcpConfigV>, n: Seq<char>)
    ensures
        has_name(plan_s(servers, cfg), n) ==> has_name(servers, n),
    decreases servers.len(),
{
    if servers.len() > 0 {
        let rest = plan_s(servers.drop_first(), cfg);
        lemma_plan_keys(servers.drop_first(), cfg, n);
        if has_name(plan_s(servers, cfg), n) {
            let i = choose|i: int| 0 <= i < plan_s(servers, cfg).len() && #[trigger] plan_s(servers, cfg)[i].0 == n;
            if enabled_for(cfg, servers[0].0, servers[0].1) {
                if i > 0 {
                    assert(rest[i - 1] == plan_s(servers, cfg)[i]);
                    let j = choose|j: int| 0 <= j < servers.drop_first().len() && #[trigger] servers.drop_first()[j].0 == n;
                    assert(servers[j + 1] == servers.drop_first()[j]);
                } else {
                    assert(servers[0].0 == n);
                }
            } else {
                assert(rest[i] == plan_s(servers, cfg)[i]);
                let j = choose|j: int| 0 <= j < servers.drop_first().len() && #[trigger] servers.drop_first()[j].0 == n;
                assert(servers[j + 1] == servers.drop_first()[j]);
            }
        }
    }
}

/// With distinct server names, a plan holds a server exactly when the
/// registry has it and the agent's settings turn it on.
pub proof fn lemma_plan_has(servers: Seq<(Seq<char>, McpServerV)>, cfg: Option<crate::registry::AgentMcpConfigV>, n: Seq<char>)
    requires
        forall|i: int, j: int| 0 <= i < j < servers.len() ==> #[trigger] servers[i].0 != #[trigger] servers[j].0,
    ensures
        has_name(plan_s(servers, cfg), n) == (lookup(servers, n) matches Some(s) && enabled_for(cfg, n, s)),
    decreases servers.len(),
{
    if servers.len() > 0 {
        let tail = servers.drop_first();
        assert forall|i: int, j: int| 0 <= i < j < tail.len() implies #[trigger] tail[i].0 != #[trigger] tail[j].0 by {
            assert(tail[i] == servers[i + 1] && tail[j] == servers[j + 1]);
        }
        lemma_plan_has(tail, cfg, n);
        let rest = plan_s(tail, cfg);
        let p = plan_s(servers, cfg);
        if enabled_for(cfg, servers[0].0, servers[0].1) {
            assert(p[0].0 == servers[0].0);
            if has_name(rest, n) {
                let i = choose|i: int| 0 <= i < rest.len() && #[trigger] rest[i].0 == n;
                assert(p[i + 1] == rest[i]);
            }
            if has_name(p, n) && servers[0].0 != n {
                let i = choose|i: int| 0 <= i < p.len() && #[trigger] p[i].0 == n;
                assert(rest[i - 1] == p[i]);
            }
        }
        if servers[0].0 == n {
            lemma_plan_keys(tail, cfg, n);
            if has_name(tail, n) {
                let j = choose|j: int| 0 <= j < tail.len() && #[trigger] tail[j].0 == n;
                assert(servers[j + 1] == tail[j]);
            }
        }
    }
}

/// After a toggle that passes validation, the agent's plan holds the server
/// exactly when the toggle enabled it.
pub proof fn law_toggle_plan(
    old: McpRegistry,
    new: McpRegistry,
    server: Seq<char>,
    agent: Seq<char>,
    enabled: bool,
    adopted: Option<McpServerEntry>,
)
    requires
        toggled(old, new, server, agent, enabled, adopted),
        keys_increasing(new.servers.entries()),
    ensures
        has_name(plan_s(new@.servers, lookup(new@.agents, agent)), server) == enabled,
{
    let sv = new@.servers;
    assert forall|i: int, j: int| 0 <= i < j < sv.len() implies #[trigger] sv[i].0 != #[trigger] sv[j].0 by {
        assert(sv[i].0 == new.servers.entries()[i].0@);
        assert(sv[j].0 == new.servers.entries()[j].0@);
        assert(lt_s(new.servers.entries()[i].0@, new.servers.entries()[j].0@));
        crate::text::lemma_lt_irrefl(sv[i].0);
    }
    lemma_plan_has(sv, lookup(new@.agents, agent), server);
    lemma_lookup_servers(new.servers.entries(), server);
    lemma_lookup_agents(new.agents.entries(), agent);
    assert(new.servers@.dom().contains(server));
    assert(new.agents@.dom().contains(agent));
    let cfg = new.agents@[agent];
    lemma_lookup_flags(cfg.enabled.entries(), server);
    assert(cfg.enabled@.dom().contains(server));
    assert(cfg.enabled@[server] == enabled);
}

/// A toggle shows on the Brain page: once the registry holds the toggled
/// flag, the merged view shows the server on or off for that agent as it
/// was toggled, whatever the agents' own configs declare.
pub proof fn law_toggle_shows_in_view(
    old: McpRegistry,
    new: McpRegistry,
    server: Seq<char>,
    agent: Seq<char>,
    enabled: bool,
    adopted: Option<McpServerEntry>,
    f: Seq<(Seq<char>, McpServerEntry)>,
)
    requires
        toggled(old, new, server, agent, enabled, adopted),
    ensures
        view_flag(f, Some(new), server, agent) == enabled,
{
    assert(new.servers@.dom().contains(server));
    assert(new.agents@.dom().contains(agent));
    let c = new.agents@[agent];
    assert(c.enabled@.dom().contains(server));
    assert(c.enabled@[server] == enabled);
}

/// The texts a string map holds.
pub open spec fn texts(m: StrMap<String>) -> Map<Seq<char>, Seq<char>> {
    Map::new(|k: Seq<char>| m@.dom().contains(k), |k: Seq<char>| m@[k]@)
}

/// `resolve_secret_ref`: the value of the variable a `${NAME}` reference
/// names, from the environment `env`.
pub open spec fn resolve_s(r: Seq<char>, env: Map<Seq<char>, Seq<char>>) -> Result<Seq<char>, HkErrorV> {
    match crate::registry::secret_name(r) {
        None => Err(HkErrorV::Validation("invalid secret reference"@)),
        Some(k) => if env.dom().contains(k) {
            Ok(env[k])
        } else {
            Err(HkErrorV::Validation("required environment variable "@ + k + " is unset"@))
        },
    }
}

/// Every reference resolved, in order, into a map; the first that fails decides.
pub open spec fn resolve_all_s(refs: Seq<(Seq<char>, Seq<char>)>, env: Map<Seq<char>, Seq<char>>) -> Result<
    Map<Seq<char>, Seq<char>>,
    HkErrorV,
>
    decreases refs.len(),
{
    if refs.len() == 0 {
        Ok(Map::empty())
    } else {
        match resolve_all_s(refs.drop_last(), env) {
            Err(e) => Err(e),
            Ok(m) => match resolve_s(refs.last().1, env) {
                Err(e) => Err(e),
                Ok(v) => Ok(m.insert(refs.last().0, v)),
            },
        }
    }
}

/// The listed variables that are set, with their values.
pub open spec fn present_s(keys: Seq<Seq<char>>, env: Map<Seq<char>, Seq<char>>) -> Map<Seq<char>, Seq<char>>
    decreases keys.len(),
{
    if keys.len() == 0 {
        Map::empty()
    } else {
        let m = present_s(keys.drop_last(), env);
        if env.dom().contains(keys.last()) {
            m.insert(keys.last(), env[keys.last()])
        } else {
            m
        }
    }
}

/// The transport a registry server runs over: `sse` and `http` as named, else
/// HTTP when it has a URL, else stdio.
pub open spec fn server_transport_s(s: McpServerV) -> McpTransport {
    if s.transport == Some("sse"@) {
        McpTransport::Sse
    } else if s.transport == Some("http"@) {
        McpTransport::Http
    } else if s.url is Some {
        McpTransport::Http
    } else {
        McpTransport::Stdio
    }
}

/// Whether `e` is the runtime entry of registry server `name` with values
/// `env_vals` and `headers` resolved.
pub open spec fn runtime_ok(
    e: McpServerEntry,
    name: Seq<char>,
    s: McpServerV,
    env_vals: Map<Seq<char>, Seq<char>>,
    headers: Map<Seq<char>, Seq<char>>,
) -> bool {
    &&& e.name@ == name
    &&& e.command@ == match s.command {
        Some(c) => c,
        None => Seq::empty(),
    }
    &&& strs(e.args@) == s.args
    &&& texts(e.env) == env_vals
    &&& e.transport == server_transport_s(s)
    &&& crate::steward::otext(e.url) == s.url
    &&& texts(e.headers) == headers
    &&& e.enabled
}

/// The runtime entry of a registry server, or the first secret that cannot be resolved.
pub open spec fn runtime_s(name: Seq<char>, s: McpServerV, env: Map<Seq<char>, Seq<char>>) -> Result<
    (Map<Seq<char>, Seq<char>>, Map<Seq<char>, Seq<char>>),
    HkErrorV,
> {
    match resolve_all_s(s.env_secret_refs, env) {
        Err(e) => Err(e),
        Ok(secrets) => match resolve_all_s(s.header_secret_refs, env) {
            Err(e) => Err(e),
            Ok(h) => Ok((present_s(s.env_keys, env).union_prefer_right(secrets), h)),
        },
    }
}

/// The name inside a `${NAME}` reference.
fn secret_key(reference: &str) -> (r: Option<String>)
    ensures
        crate::steward::otext(r) == crate::registry::secret_name(reference@),
{
    let v = chars_of(reference);
    let n = v.len();
    if n >= 3 && v[0] == '$' && v[1] == '{' && v[n - 1] == '}' {
        let name = crate::text::slice_of(v.as_slice(), 2, n - 1);
        Some(crate::text::string_of(name.as_slice()))
    } else {
        None
    }
}

/// `resolve_secret_ref`, with the environment given.
pub fn resolve_secret_ref(reference: &str, env: &StrMap<String>) -> (r: Result<String, HkError>)
    ensures
        crate::steward::text_v(r) == resolve_s(reference@, texts(*env)),
{
    match secret_key(reference) {
        None => Err(HkError::Validation("invalid secret reference".to_owned())),
        Some(k) => match env.get(k.as_str()) {
            Some(v) => Ok(v.clone()),
            None => {
                let mut m = "required environment variable ".to_owned();
                push_str(&mut m, k.as_str());
                push_str(&mut m, " is unset");
                Err(HkError::Validation(m))
            },
        },
    }
}

/// Resolves every reference into `into`, in key order.
fn resolve_into(refs: &StrMap<String>, env: &StrMap<String>, into: &mut StrMap<String>) -> (r: Result<(), HkError>)
    ensures
        match resolve_all_s(crate::registry::pairs(refs.entries()), texts(*env)) {
            Err(e) => r matches Err(x) && x@ == e,
            Ok(m) => r is Ok && texts(*final(into)) == texts(*old(into)).union_prefer_right(m),
        },
{
    let ghost start = texts(*into);
    let ghost ps = crate::registry::pairs(refs.entries());
    let mut i: usize = 0;
    proof {
        assert(ps.take(0) =~= Seq::<(Seq<char>, Seq<char>)>::empty());
        assert(start.union_prefer_right(Map::empty()) =~= start);
    }
    while i < refs.len()
        invariant
            i <= refs.entries().len(),
            ps == crate::registry::pairs(refs.entries()),
            resolve_all_s(ps.take(i as int), texts(*env)) matches Ok(m) && texts(*into)
                == start.union_prefer_right(m),
        decreases refs.entries().len() - i,
    {
        let k = refs.key_at(i);
        let reference = refs.value_at(i);
        proof {
            assert(ps.take(i + 1).drop_last() =~= ps.take(i as int));
            assert(ps.take(i + 1).last() == (k@, reference@));
        }
        match resolve_secret_ref(reference.as_str(), env) {
            Err(e) => {
                proof {
                    lemma_resolve_prefix(ps, texts(*env), i as int + 1);
                }
                return Err(e);
            },
            Ok(v) => {
                let ghost before = texts(*into);
                into.insert(k.clone(), v);
                proof {
                    let m = resolve_all_s(ps.take(i as int), texts(*env))->Ok_0;
                    assert(texts(*into) =~= before.insert(k@, v@));
                    assert(start.union_prefer_right(m.insert(k@, v@)) =~= start.union_prefer_right(
                        m,
                    ).insert(k@, v@));
                }
            },
        }
        i += 1;
    }
    proof {
        assert(ps.take(i as int) =~= ps);
    }
    Ok(())
}

/// A failure among the first `n` references is the result for all of them.
proof fn lemma_resolve_prefix(refs: Seq<(Seq<char>, Seq<char>)>, env: Map<Seq<char>, Seq<char>>, n: int)
    requires
        1 <= n <= refs.len(),
        resolve_all_s(refs.take(n), env) is Err,
    ensures
        resolve_all_s(refs, env) == resolve_all_s(refs.take(n), env),
    decreases refs.len() - n,
{
    if n < refs.len() {
        assert(refs.take(n + 1).drop_last() =~= refs.take(n));
        lemma_resolve_prefix(refs, env, n + 1);
    } else {
        assert(refs.take(n) =~= refs);
    }
}

/// A name a registry server reads from the environment: one of its listed
/// keys, or one a secret reference of it names.
pub open spec fn needed_name(s: McpServerV, k: Seq<char>) -> bool {
    ||| s.env_keys.contains(k)
    ||| exists|q: int|
        0 <= q < s.env_secret_refs.len() && crate::registry::secret_name(
            #[trigger] s.env_secret_refs[q].1,
        ) == Some(k)
    ||| exists|q: int|
        0 <= q < s.header_secret_refs.len() && crate::registry::secret_name(
            #[trigger] s.header_secret_refs[q].1,
        ) == Some(k)
}

/// The names of the environment variables a registry server needs: its
/// listed keys and those its secret references name.
pub fn env_names(server: &McpServer) -> (v: Vec<String>)
    ensures
        forall|i: int| 0 <= i < v@.len() ==> needed_name(server@, #[trigger] v@[i]@),
        forall|k: Seq<char>| server@.env_keys.contains(k) ==> strs(v@).contains(k),
        forall|i: int|
            0 <= i < server@.env_secret_refs.len() ==> (crate::registry::secret_name(
                #[trigger] server@.env_secret_refs[i].1,
            ) matches Some(k) ==> strs(v@).contains(k)),
        forall|i: int|
            0 <= i < server@.header_secret_refs.len() ==> (crate::registry::secret_name(
                #[trigger] server@.header_secret_refs[i].1,
            ) matches Some(k) ==> strs(v@).contains(k)),
{
    let mut v = dup_strs(&server.env_keys);
    proof {
        assert forall|k: Seq<char>| server@.env_keys.contains(k) implies strs(v@).contains(k) by {}
        assert forall|i: int| 0 <= i < v@.len() implies needed_name(server@, #[trigger] v@[i]@) by {
            assert(server@.env_keys[i] == v@[i]@);
        }
    }
    let mut i: usize = 0;
    while i < server.env_secret_refs.len()
        invariant
            i <= server.env_secret_refs.entries().len(),
            forall|k: Seq<char>| server@.env_keys.contains(k) ==> strs(v@).contains(k),
            forall|q: int| 0 <= q < v@.len() ==> needed_name(server@, #[trigger] v@[q]@),
            forall|j: int|
                0 <= j < i ==> (crate::registry::secret_name(
                    #[trigger] server@.env_secret_refs[j].1,
                ) matches Some(k) ==> strs(v@).contains(k)),
        decreases server.env_secret_refs.entries().len() - i,
    {
        let ghost before = strs(v@);
        if let Some(k) = secret_key(server.env_secret_refs.value_at(i).as_str()) {
            v.push(k);
            proof {
                assert(server@.env_secret_refs[i as int].1 == server.env_secret_refs.entries()[i as int].1@);
                assert(needed_name(server@, k@));
                assert(strs(v@) =~= before.push(k@));
                assert forall|x: Seq<char>| before.contains(x) implies strs(v@).contains(x) by {
                    let q = choose|q: int| 0 <= q < before.len() && before[q] == x;
                    assert(strs(v@)[q] == x);
                }
                assert(strs(v@)[before.len() as int] == k@);
            }
        }
        i += 1;
    }
    let mut j: usize = 0;
    while j < server.header_secret_refs.len()
        invariant
            j <= server.header_secret_refs.entries().len(),
            forall|k: Seq<char>| server@.env_keys.contains(k) ==> strs(v@).contains(k),
            forall|q: int| 0 <= q < v@.len() ==> needed_name(server@, #[trigger] v@[q]@),
            forall|q: int|
                0 <= q < server@.env_secret_refs.len() ==> (crate::registry::secret_name(
                    #[trigger] server@.env_secret_refs[q].1,
                ) matches Some(k) ==> strs(v@).contains(k)),
            forall|q: int|
                0 <= q < j ==> (crate::registry::secret_name(
                    #[trigger] server@.header_secret_refs[q].1,
                ) matches Some(k) ==> strs(v@).contains(k)),
        decreases server.header_secret_refs.entries().len() - j,
    {
        let ghost before = strs(v@);
        if let Some(k) = secret_key(server.header_secret_refs.value_at(j).as_str()) {
            v.push(k);
            proof {
                assert(server@.header_secret_refs[j as int].1 == server.header_secret_refs.entries()[j as int].1@);
                assert(needed_name(server@, k@));
                assert(strs(v@) =~= before.push(k@));
                assert forall|x: Seq<char>| before.contains(x) implies strs(v@).contains(x) by {
                    let q = choose|q: int| 0 <= q < before.len() && before[q] == x;
                    assert(strs(v@)[q] == x);
                }
                assert(strs(v@)[before.len() as int] == k@);
            }
        }
        j += 1;
    }
    v
}

/// `runtime_entry`, with the environment's values for the names
/// `env_names` lists given in `env`.
pub fn runtime_entry(name: &str, server: &McpServer, env: &StrMap<String>) -> (r: Result<
    McpServerEntry,
    HkError,
>)
    ensures
        match runtime_s(name@, server@, texts(*env)) {
            Err(e) => r matches Err(x) && x@ == e,
            Ok(maps) => r matches Ok(entry) && runtime_ok(entry, name@, server@, maps.0, maps.1),
        },
{
    let mut vars: StrMap<String> = StrMap::new();
    let mut i: usize = 0;
    proof {
        assert(strs(server.env_keys@).take(0) =~= Seq::<Seq<char>>::empty());
        assert(texts(vars) =~= Map::<Seq<char>, Seq<char>>::empty());
    }
    while i < server.env_keys.len()
        invariant
            i <= server.env_keys@.len(),
            texts(vars) == present_s(strs(server.env_keys@).take(i as int), texts(*env)),
        decreases server.env_keys@.len() - i,
    {
        let k = &server.env_keys[i];
        proof {
            assert(strs(server.env_keys@).take(i + 1).drop_last() =~= strs(server.env_keys@).take(
                i as int,
            ));
            assert(strs(server.env_keys@).take(i + 1).last() == k@);
        }
        match env.get(k.as_str()) {
            Some(v) => {
                let ghost before = texts(vars);
                vars.insert(k.clone(), v.clone());
                proof {
                    assert(texts(vars) =~= before.insert(k@, v@));
                }
            },
            None => {},
        }
        i += 1;
    }
    proof {
        assert(strs(server.env_keys@).take(i as int) =~= strs(server.env_keys@));
    }
    resolve_into(&server.env_secret_refs, env, &mut vars)?;
    let mut headers: StrMap<String> = StrMap::new();
    proof {
        assert(texts(headers) =~= Map::<Seq<char>, Seq<char>>::empty());
    }
    let ghost h0 = texts(headers);
    resolve_into(&server.header_secret_refs, env, &mut headers)?;
    proof {
        if let Ok(m) = resolve_all_s(server@.header_secret_refs, texts(*env)) {
            assert(h0.union_prefer_right(m) =~= m);
        }
    }
    let transport = match &server.transport {
        Some(t) => if str_is(t.as_str(), "sse") {
            McpTransport::Sse
        } else if str_is(t.as_str(), "http") {
            McpTransport::Http
        } else if server.url.is_some() {
            McpTransport::Http
        } else {
            McpTransport::Stdio
        },
        None => if server.url.is_some() {
            McpTransport::Http
        } else {
            McpTransport::Stdio
        },
    };
    Ok(
        McpServerEntry {
            name: name.to_owned(),
            command: match &server.command {
                Some(c) => c.clone(),
                None => String::new(),
            },
            args: dup_strs(&server.args),
            env: vars,
            transport,
            url: dup_opt(&server.url),
            headers,
            enabled: true,
        },
    )
}

/// Agent `agent`'s own config, among `native`, declares a server `server`.
pub open spec fn native_has(native: Seq<(String, Vec<McpServerEntry>)>, agent: Seq<char>, server: Seq<char>) -> bool {
    exists|i: int, j: int|
        0 <= i < native.len() && 0 <= j < native[i].1@.len() && native[i].0@ == agent
            && #[trigger] native[i].1@[j].name@ == server
}

/// Whether agent `agent`'s own config, among each agent's own servers
/// (`native`), declares `server`.
pub fn has_native_entry(native: &Vec<(String, Vec<McpServerEntry>)>, agent: &str, server: &str) -> (b: bool)
    ensures
        b == native_has(native@, agent@, server@),
{
    let mut i: usize = 0;
    while i < native.len()
        invariant
            i <= native@.len(),
            forall|a: int, j: int|
                0 <= a < i && 0 <= j < native@[a].1@.len() && native@[a].0@ == agent@ ==> #[trigger] native@[
                    a
                ].1@[j].name@ != server@,
        decreases native@.len() - i,
    {
        if str_is(native[i].0.as_str(), agent) {
            let entries = &native[i].1;
            let mut j: usize = 0;
            while j < entries.len()
                invariant
                    i < native@.len(),
                    entries@ == native@[i as int].1@,
                    native@[i as int].0@ == agent@,
                    j <= entries@.len(),
                    forall|k: int| 0 <= k < j ==> #[trigger] entries@[k].name@ != server@,
                decreases entries@.len() - j,
            {
                if str_is(entries[j].name.as_str(), server) {
                    return true;
                }
                j += 1;
            }
        }
        i += 1;
    }
    false
}

/// What `apply_mcp_toggle` does to the agent's own config after the
/// registry is written.
#[derive(Clone, Copy, PartialEq, Eq, Structural, Debug)]
pub enum NativeStep {
    /// Flip the server's own enabled flag.
    Toggle,
    /// Add the server, from the agent's plan.
    Deploy,
    /// Take the server out.
    Remove,
    /// Nothing to do.
    Keep,
}

/// The native step, given whether the agent can flip flags itself and
/// whether its config has the server: flip it where possible (Hermes and
/// OpenClaw only), else add it when enabling, remove it when disabling.
pub fn native_step(agent: &str, supports_native: bool, existing: bool, enabled: bool) -> (r: Result<
    NativeStep,
    HkError,
>)
    ensures
        supports_native && existing ==> if agent@ == "hermes"@ || agent@ == "openclaw"@ {
            r == Ok::<NativeStep, HkError>(NativeStep::Toggle)
        } else {
            r matches Err(e) && e@ == HkErrorV::Internal(
                "native MCP toggle is not implemented for "@ + agent@,
            )
        },
        !(supports_native && existing) ==> r == Ok::<NativeStep, HkError>(
            if enabled && !existing {
                NativeStep::Deploy
            } else if !enabled && existing {
                NativeStep::Remove
            } else {
                NativeStep::Keep
            },
        ),
{
    if supports_native && existing {
        if str_is(agent, "hermes") || str_is(agent, "openclaw") {
            Ok(NativeStep::Toggle)
        } else {
            let mut m = "native MCP toggle is not implemented for ".to_owned();
            push_str(&mut m, agent);
            Err(HkError::Internal(m))
        }
    } else if enabled && !existing {
        Ok(NativeStep::Deploy)
    } else if !enabled && existing {
        Ok(NativeStep::Remove)
    } else {
        Ok(NativeStep::Keep)
    }
}

/// A server adopted from an agent's own config keeps what it runs: the
/// command of a stdio server, its URL, its arguments one by one, the names
/// of its environment variables in order (never their values) and its
/// transport's name. It starts off by default and has no working
/// directory, secret references or tool list of its own.
pub proof fn law_adopted_server_keeps_entry(e: McpServerEntry)
    ensures
        registry_server_s(e).args.len() == e.args@.len(),
        forall|i: int| 0 <= i < e.args@.len() ==> #[trigger] registry_server_s(e).args[i] == e.args@[i]@,
        e.transport is Stdio ==> registry_server_s(e).command == Some(e.command@),
        !(e.transport is Stdio) ==> registry_server_s(e).command is None,
        registry_server_s(e).url == match e.url {
            Some(u) => Some(u@),
            None => None::<Seq<char>>,
        },
        registry_server_s(e).env_keys.len() == e.env.entries().len(),
        forall|i: int|
            0 <= i < e.env.entries().len() ==> #[trigger] registry_server_s(e).env_keys[i]
                == e.env.entries()[i].0@,
        registry_server_s(e).transport == Some(
            match e.transport {
                McpTransport::Stdio => "stdio"@,
                McpTransport::Http => "http"@,
                McpTransport::Sse => "sse"@,
            },
        ),
        !registry_server_s(e).enabled_by_default,
        registry_server_s(e).cwd is None,
        registry_server_s(e).env_secret_refs.len() == 0,
        registry_server_s(e).header_secret_refs.len() == 0,
        registry_server_s(e).tool_allow.len() == 0,
{
}

} // verus!

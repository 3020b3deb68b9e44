//! Edits to the MCP servers OpenClaw's own config declares: OpenClaw keeps
//! them in `openclaw.json` under `mcp.servers.<name>`. The writers for
//! Codex's and Hermes' native MCP configs are not part of this crate, so
//! those agents refuse native MCP changes.
use vstd::prelude::*;
use crate::doc::{
    dv, dvm, dvs, find_key, get_v, key_index, lemma_dv_list, lemma_dv_table, lemma_dvm_push, lemma_dvs_push,
    lemma_find_key, map_insert, map_insert_s, Doc, DocV,
};
use crate::error::{HkError, HkErrorV};
use crate::mcp::{McpServerEntry, McpTransport};
use crate::text::{push_str, str_is};

verus! {

/// Why agent `agent`'s own MCP config cannot be changed here.
pub open spec fn unavailable_s(agent: Seq<char>) -> HkErrorV {
    HkErrorV::Internal("native MCP changes are not available for "@ + agent)
}

/// A table of strings, in the given order.
pub open spec fn str_table_s(es: Seq<(String, String)>) -> DocV {
    DocV::Table(es.map_values(|p: (String, String)| (DocV::Str(p.0@), DocV::Str(p.1@))))
}

/// How OpenClaw's config writes a server: its command, or its URL and
/// transport; its arguments, environment and headers where there are any;
/// and whether it is enabled.
pub open spec fn entry_doc_s(e: McpServerEntry) -> DocV {
    let head: Seq<(DocV, DocV)> = match e.transport {
        McpTransport::Stdio => seq![(DocV::Str("command"@), DocV::Str(e.command@))],
        _ => seq![
            (DocV::Str("url"@), DocV::Str(
                match e.url {
                    Some(u) => u@,
                    None => Seq::empty(),
                },
            )),
            (DocV::Str("transport"@), DocV::Str(
                if e.transport is Sse {
                    "sse"@
                } else {
                    "streamable-http"@
                },
            )),
        ],
    };
    let args: Seq<(DocV, DocV)> = if e.args@.len() > 0 {
        seq![(DocV::Str("args"@), DocV::List(e.args@.map_values(|a: String| DocV::Str(a@))))]
    } else {
        Seq::empty()
    };
    let env: Seq<(DocV, DocV)> = if e.env.entries().len() > 0 {
        seq![(DocV::Str("env"@), str_table_s(e.env.entries()))]
    } else {
        Seq::empty()
    };
    let headers: Seq<(DocV, DocV)> = if e.headers.entries().len() > 0 {
        seq![(DocV::Str("headers"@), str_table_s(e.headers.entries()))]
    } else {
        Seq::empty()
    };
    DocV::Table(head + args + env + headers + seq![(DocV::Str("enabled"@), DocV::Bool(e.enabled))])
}

/// The servers table of an OpenClaw config (empty where `mcp` or
/// `mcp.servers` is missing), or why it cannot be edited.
pub open spec fn servers_s(root: DocV) -> Result<Seq<(DocV, DocV)>, HkErrorV> {
    match root {
        DocV::Table(_) => match get_v(root, "mcp"@) {
            None => Ok(Seq::empty()),
            Some(DocV::Table(m)) => match get_v(DocV::Table(m), "servers"@) {
                None => Ok(Seq::empty()),
                Some(DocV::Table(s)) => Ok(s),
                Some(_) => Err(HkErrorV::ConfigCorrupted("OpenClaw mcp.servers is not an object"@)),
            },
            Some(_) => Err(HkErrorV::ConfigCorrupted("OpenClaw mcp is not an object"@)),
        },
        _ => Err(HkErrorV::ConfigCorrupted("OpenClaw root is not an object"@)),
    }
}

/// `root` with `mcp.servers` set to `s`, adding `mcp` where it is missing.
pub open spec fn with_servers_s(root: DocV, s: Seq<(DocV, DocV)>) -> DocV {
    match root {
        DocV::Table(es) => {
            let m = match get_v(root, "mcp"@) {
                Some(DocV::Table(m)) => m,
                _ => Seq::empty(),
            };
            DocV::Table(map_insert_s(es, "mcp"@, DocV::Table(map_insert_s(m, "servers"@, DocV::Table(s)))))
        },
        _ => root,
    }
}

/// The entries without the one under string key `k`.
pub open spec fn remove_key_s(es: Seq<(DocV, DocV)>, k: Seq<char>) -> Seq<(DocV, DocV)> {
    match find_key(es, k) {
        Some(i) => es.remove(i),
        None => es,
    }
}

/// Switching server `server` of OpenClaw's config on or off.
pub open spec fn set_enabled_s(agent: Seq<char>, root: DocV, server: Seq<char>, enabled: bool) -> Result<
    DocV,
    HkErrorV,
> {
    if agent != "openclaw"@ {
        Err(unavailable_s(agent))
    } else {
        match servers_s(root) {
            Err(e) => Err(e),
            Ok(s) => match get_v(DocV::Table(s), server) {
                Some(DocV::Table(e)) => Ok(
                    with_servers_s(
                        root,
                        map_insert_s(s, server, DocV::Table(map_insert_s(e, "enabled"@, DocV::Bool(enabled)))),
                    ),
                ),
                _ => Err(HkErrorV::NotFound("OpenClaw MCP server "@ + server)),
            },
        }
    }
}

/// Adding (or replacing) a server in OpenClaw's config.
pub open spec fn deploy_s(agent: Seq<char>, root: DocV, e: McpServerEntry) -> Result<DocV, HkErrorV> {
    if agent != "openclaw"@ {
        Err(unavailable_s(agent))
    } else {
        match servers_s(root) {
            Err(err) => Err(err),
            Ok(s) => Ok(with_servers_s(root, map_insert_s(s, e.name@, entry_doc_s(e)))),
        }
    }
}

/// Taking a server out of OpenClaw's config.
pub open spec fn remove_s(agent: Seq<char>, root: DocV, server: Seq<char>) -> Result<DocV, HkErrorV> {
    if agent != "openclaw"@ {
        Err(unavailable_s(agent))
    } else {
        match servers_s(root) {
            Err(e) => Err(e),
            Ok(s) => Ok(with_servers_s(root, remove_key_s(s, server))),
        }
    }
}

/// The refusal for an agent whose native MCP config is not written here.
fn unavailable(agent: &str) -> (e: HkError)
    ensures
        e@ == unavailable_s(agent@),
{
    let mut m = "native MCP changes are not available for ".to_owned();
    push_str(&mut m, agent);
    proof {
        reveal_strlit("native MCP changes are not available for ");
    }
    HkError::Internal(m)
}

/// A table of strings from a string map, in key order.
fn str_table(m: &crate::smap::StrMap<String>) -> (d: Doc)
    ensures
        dv(d) == str_table_s(m.entries()),
{
    let mut es: Vec<(Doc, Doc)> = Vec::new();
    let mut i: usize = 0;
    while i < m.len()
        invariant
            i <= m.entries().len(),
            dvm(es@) == m.entries().take(i as int).map_values(
                |p: (String, String)| (DocV::Str(p.0@), DocV::Str(p.1@)),
            ),
        decreases m.entries().len() - i,
    {
        let k = m.key_at(i).clone();
        let v = m.value_at(i).clone();
        proof {
            lemma_dvm_push(es@, (Doc::Str(k), Doc::Str(v)));
            assert(m.entries().take(i + 1) =~= m.entries().take(i as int).push(m.entries()[i as int]));
        }
        es.push((Doc::Str(k), Doc::Str(v)));
        proof {
            assert(dvm(es@) =~= m.entries().take(i + 1).map_values(
                |p: (String, String)| (DocV::Str(p.0@), DocV::Str(p.1@)),
            ));
        }
        i += 1;
    }
    proof {
        assert(m.entries().take(i as int) =~= m.entries());
        lemma_dv_table(es);
    }
    Doc::Table(es)
}

/// How OpenClaw's config writes `e`.
pub fn entry_doc(e: &McpServerEntry) -> (d: Doc)
    ensures
        dv(d) == entry_doc_s(*e),
{
    let mut es: Vec<(Doc, Doc)> = Vec::new();
    match e.transport {
        McpTransport::Stdio => {
            es.push((Doc::Str("command".to_owned()), Doc::Str(e.command.clone())));
        },
        _ => {
            let url = match &e.url {
                Some(u) => u.clone(),
                None => String::new(),
            };
            es.push((Doc::Str("url".to_owned()), Doc::Str(url)));
            let t = if e.transport == McpTransport::Sse {
                "sse"
            } else {
                "streamable-http"
            };
            es.push((Doc::Str("transport".to_owned()), Doc::Str(t.to_owned())));
        },
    }
    if e.args.len() > 0 {
        let mut items: Vec<Doc> = Vec::new();
        let mut i: usize = 0;
        while i < e.args.len()
            invariant
                i <= e.args@.len(),
                dvs(items@) == e.args@.take(i as int).map_values(|a: String| DocV::Str(a@)),
            decreases e.args@.len() - i,
        {
            let a = Doc::Str(e.args[i].clone());
            proof {
                lemma_dvs_push(items@, a);
                assert(e.args@.take(i + 1) =~= e.args@.take(i as int).push(e.args@[i as int]));
            }
            items.push(a);
            proof {
                assert(dvs(items@) =~= e.args@.take(i + 1).map_values(|a: String| DocV::Str(a@)));
            }
            i += 1;
        }
        proof {
            assert(e.args@.take(i as int) =~= e.args@);
            lemma_dv_list(items);
        }
        es.push((Doc::Str("args".to_owned()), Doc::List(items)));
    }
    if e.env.len() > 0 {
        let t = str_table(&e.env);
        es.push((Doc::Str("env".to_owned()), t));
    }
    if e.headers.len() > 0 {
        let t = str_table(&e.headers);
        es.push((Doc::Str("headers".to_owned()), t));
    }
    es.push((Doc::Str("enabled".to_owned()), Doc::Bool(e.enabled)));
    proof {
        reveal_strlit("command");
        reveal_strlit("url");
        reveal_strlit("transport");
        reveal_strlit("sse");
        reveal_strlit("streamable-http");
        reveal_strlit("args");
        reveal_strlit("env");
        reveal_strlit("headers");
        reveal_strlit("enabled");
        lemma_dv_table(es);
        assert(dvm(es@) =~= match entry_doc_s(*e) {
            DocV::Table(x) => x,
            _ => Seq::empty(),
        });
    }
    Doc::Table(es)
}

/// A copy of the servers table of `root`, or why it cannot be edited.
fn servers_of(root: &Doc) -> (r: Result<Vec<(Doc, Doc)>, HkError>)
    ensures
        match servers_s(dv(*root)) {
            Ok(s) => r matches Ok(v) && dvm(v@) == s,
            Err(e) => r matches Err(x) && x@ == e,
        },
{
    proof {
        reveal_strlit("OpenClaw root is not an object");
        reveal_strlit("OpenClaw mcp is not an object");
        reveal_strlit("OpenClaw mcp.servers is not an object");
    }
    match root {
        Doc::Table(_) => {},
        _ => {
            return Err(HkError::ConfigCorrupted("OpenClaw root is not an object".to_owned()));
        },
    }
    let m = match root.get("mcp") {
        None => {
            return Ok(Vec::new());
        },
        Some(m) => m,
    };
    match m {
        Doc::Table(_) => {},
        _ => {
            return Err(HkError::ConfigCorrupted("OpenClaw mcp is not an object".to_owned()));
        },
    }
    proof {
        lemma_table_dv(*m);
    }
    let sd = match m.get("servers") {
        None => {
            return Ok(Vec::new());
        },
        Some(sd) => sd,
    };
    match sd.dup() {
        Doc::Table(v) => {
            proof {
                lemma_dv_table(v);
            }
            Ok(v)
        },
        other => {
            proof {
                lemma_table_dv(other);
            }
            Err(HkError::ConfigCorrupted("OpenClaw mcp.servers is not an object".to_owned()))
        },
    }
}

/// A value is a table exactly when it reads as one.
proof fn lemma_table_dv(d: Doc)
    ensures
        (d is Table) <==> (dv(d) is Table),
{
    if let Doc::Table(v) = d {
        lemma_dv_table(v);
    }
}

/// `root` with `mcp.servers` set to `s`.
fn with_servers(root: Doc, s: Vec<(Doc, Doc)>) -> (r: Doc)
    ensures
        dv(r) == with_servers_s(dv(root), dvm(s@)),
{
    match root {
        Doc::Table(mut es) => {
            proof {
                lemma_dv_table(es);
                lemma_find_key(dvm(es@), "mcp"@);
            }
            let ghost es0 = dvm(es@);
            let mut m: Vec<(Doc, Doc)> = match key_index(&es, "mcp") {
                Some(i) => {
                    proof {
                        assert(es0[i as int].1 == dv(es@[i as int].1));
                    }
                    match es[i].1.dup() {
                        Doc::Table(v) => {
                            proof {
                                lemma_dv_table(v);
                            }
                            v
                        },
                        other => {
                            proof {
                                lemma_table_dv(other);
                            }
                            Vec::new()
                        },
                    }
                },
                None => Vec::new(),
            };
            let ghost m0 = dvm(m@);
            proof {
                assert(m0 == match get_v(DocV::Table(es0), "mcp"@) {
                    Some(DocV::Table(x)) => x,
                    _ => Seq::<(DocV, DocV)>::empty(),
                });
                lemma_dv_table(s);
            }
            map_insert(&mut m, "servers".to_owned(), Doc::Table(s));
            proof {
                lemma_dv_table(m);
            }
            map_insert(&mut es, "mcp".to_owned(), Doc::Table(m));
            proof {
                lemma_dv_table(es);
                reveal_strlit("mcp");
                reveal_strlit("servers");
            }
            Doc::Table(es)
        },
        other => other,
    }
}

/// Switches server `server` of agent `agent`'s own config on or off, given
/// that config as read (`root`, or why it could not be read).
pub fn set_native_enabled(agent: &str, root: Result<Doc, HkError>, server: &str, enabled: bool) -> (r: Result<
    Doc,
    HkError,
>)
    ensures
        agent@ != "openclaw"@ ==> (r matches Err(x) && x@ == unavailable_s(agent@)),
        agent@ == "openclaw"@ ==> match root {
            Err(e) => r matches Err(x) && x@ == e@,
            Ok(d) => match set_enabled_s(agent@, dv(d), server@, enabled) {
                Ok(x) => r matches Ok(d2) && dv(d2) == x,
                Err(e) => r matches Err(x) && x@ == e,
            },
        },
{
    if !str_is(agent, "openclaw") {
        return Err(unavailable(agent));
    }
    let root = match root {
        Ok(d) => d,
        Err(e) => {
            return Err(e);
        },
    };
    let mut s = match servers_of(&root) {
        Ok(s) => s,
        Err(e) => {
            return Err(e);
        },
    };
    proof {
        lemma_dv_table(s);
        lemma_find_key(dvm(s@), server@);
    }
    let ghost s0 = dvm(s@);
    let found = match key_index(&s, server) {
        Some(i) => {
            proof {
                assert(s0[i as int].1 == dv(s@[i as int].1));
            }
            match s[i].1.dup() {
                Doc::Table(v) => {
                    proof {
                        lemma_dv_table(v);
                    }
                    Some(v)
                },
                other => {
                    proof {
                        lemma_table_dv(other);
                    }
                    None
                },
            }
        },
        None => None,
    };
    match found {
        Some(mut e) => {
            map_insert(&mut e, "enabled".to_owned(), Doc::Bool(enabled));
            proof {
                lemma_dv_table(e);
            }
            map_insert(&mut s, server.to_owned(), Doc::Table(e));
            proof {
                reveal_strlit("enabled");
            }
            Ok(with_servers(root, s))
        },
        None => {
            let mut m = "OpenClaw MCP server ".to_owned();
            push_str(&mut m, server);
            proof {
                reveal_strlit("OpenClaw MCP server ");
            }
            Err(HkError::NotFound(m))
        },
    }
}

/// Adds server `e` to agent `agent`'s own config, replacing one of the same
/// name, given that config as read (`root`, or why it could not be read).
pub fn deploy_native(agent: &str, root: Result<Doc, HkError>, e: &McpServerEntry) -> (r: Result<Doc, HkError>)
    ensures
        agent@ != "openclaw"@ ==> (r matches Err(x) && x@ == unavailable_s(agent@)),
        agent@ == "openclaw"@ ==> match root {
            Err(err) => r matches Err(x) && x@ == err@,
            Ok(d) => match deploy_s(agent@, dv(d), *e) {
                Ok(x) => r matches Ok(d2) && dv(d2) == x,
                Err(err) => r matches Err(x) && x@ == err,
            },
        },
{
    if !str_is(agent, "openclaw") {
        return Err(unavailable(agent));
    }
    let root = match root {
        Ok(d) => d,
        Err(err) => {
            return Err(err);
        },
    };
    let mut s = match servers_of(&root) {
        Ok(s) => s,
        Err(err) => {
            return Err(err);
        },
    };
    map_insert(&mut s, e.name.clone(), entry_doc(e));
    Ok(with_servers(root, s))
}

/// Takes server `server` out of agent `agent`'s own config, given that
/// config as read (`root`, or why it could not be read).
pub fn remove_native(agent: &str, root: Result<Doc, HkError>, server: &str) -> (r: Result<Doc, HkError>)
    ensures
        agent@ != "openclaw"@ ==> (r matches Err(x) && x@ == unavailable_s(agent@)),
        agent@ == "openclaw"@ ==> match root {
            Err(e) => r matches Err(x) && x@ == e@,
            Ok(d) => match remove_s(agent@, dv(d), server@) {
                Ok(x) => r matches Ok(d2) && dv(d2) == x,
                Err(e) => r matches Err(x) && x@ == e,
            },
        },
{
    if !str_is(agent, "openclaw") {
        return Err(unavailable(agent));
    }
    let root = match root {
        Ok(d) => d,
        Err(e) => {
            return Err(e);
        },
    };
    let mut s = match servers_of(&root) {
        Ok(s) => s,
        Err(e) => {
            return Err(e);
        },
    };
    let ghost s0 = s@;
    proof {
        lemma_find_key(dvm(s@), server@);
        assert(dvm(s@).len() == s@.len());
    }
    match key_index(&s, server) {
        Some(i) => {
            s.remove(i);
            proof {
                assert(dvm(s@) =~= dvm(s0).remove(i as int));
            }
        },
        None => {},
    }
    Ok(with_servers(root, s))
}

} // verus!

//! OpenClaw's configuration surfaces: its directories, its movable
//! workspace, its persona and memory files, and the MCP servers its config
//! declares under `mcp.servers`.
use vstd::prelude::*;
use crate::doc::{dv, dvm, dvs, get_v, lemma_dv_list, lemma_dv_table, Doc, DocV};
use crate::mcp::{McpServerEntry, McpTransport};
use crate::order::{listed_path, sorted_unique};
use crate::paths::{comps, extension, extension_s, is_absolute, join, join_s};
use crate::smap::StrMap;
use crate::text::{chars_of, slice_of, starts_with_s, str_is, str_starts_with, string_of, strs};

verus! {

/// OpenClaw's persona files, in the order they are listed.
pub open spec fn persona_names() -> Seq<Seq<char>> {
    seq![
        "AGENTS.md"@,
        "SOUL.md"@,
        "IDENTITY.md"@,
        "USER.md"@,
        "TOOLS.md"@,
        "HEARTBEAT.md"@,
        "DREAMS.md"@,
    ]
}

/// A file or directory whose presence marks a project for an agent.
#[derive(Clone, Copy, PartialEq, Eq, Debug)]
pub enum ProjectMarker {
    File(&'static str),
    Dir(&'static str),
}

/// The OpenClaw agent, relative to a home directory.
pub struct OpenClawAdapter {
    home: String,
}

/// The text of the setting `agents.defaults.workspace`, when it is a string.
pub open spec fn workspace_setting_s(config: Option<DocV>) -> Option<Seq<char>> {
    match config {
        Some(c) => match get_v(c, "agents"@) {
            Some(a) => match get_v(a, "defaults"@) {
                Some(d) => match get_v(d, "workspace"@) {
                    Some(DocV::Str(w)) => Some(w),
                    _ => None,
                },
                None => None,
            },
            None => None,
        },
        None => None,
    }
}

/// The value of an optional document.
pub open spec fn odv(d: Option<Doc>) -> Option<DocV> {
    match d {
        Some(x) => Some(dv(x)),
        None => None,
    }
}

/// `agents.defaults.workspace` of a parsed `openclaw.json`.
pub fn workspace_setting(config: &Option<Doc>) -> (r: Option<String>)
    ensures
        crate::steward::otext(r) == workspace_setting_s(odv(*config)),
{
    let c = match config {
        Some(c) => c,
        None => {
            return None;
        },
    };
    let a = c.get("agents")?;
    let d = a.get("defaults")?;
    let w = d.get("workspace")?;
    match w {
        Doc::Str(s) => Some(s.clone()),
        _ => None,
    }
}

impl OpenClawAdapter {
    /// The home directory this adapter works below.
    pub closed spec fn home_s(&self) -> Seq<char> {
        self.home@
    }

    /// The adapter for the current user's home (empty when it is unknown).
    pub fn new() -> (a: Self) {
        Self::from_home(crate::paths::home_dir_text())
    }

    /// The adapter for a looked-up home directory: that home, or the empty
    /// path where none was found.
    pub fn from_home(h: Option<String>) -> (a: Self)
        ensures
            a.home_s() == match h {
                Some(x) => x@,
                None => Seq::<char>::empty(),
            },
    {
        let home = match h {
            Some(x) => x,
            None => String::new(),
        };
        OpenClawAdapter { home }
    }

    /// The adapter for the given home directory.
    pub fn with_home(home: String) -> (a: Self)
        ensures
            a.home_s() == home@,
    {
        OpenClawAdapter { home }
    }

    /// The adapter the Brain page uses for the given home directory.
    pub fn with_home_for_brain(home: String) -> (a: Self)
        ensures
            a.home_s() == home@,
    {
        OpenClawAdapter { home }
    }

    /// The agent's name.
    pub fn name(&self) -> (n: &'static str)
        ensures
            n@ == "openclaw"@,
    {
        "openclaw"
    }

    /// `~/.openclaw`.
    pub fn base_dir(&self) -> (p: String)
        ensures
            p@ == join_s(self.home_s(), ".openclaw"@),
    {
        join(self.home.as_str(), ".openclaw")
    }

    /// `~/.openclaw/openclaw.json`, which holds the MCP servers too.
    pub fn mcp_config_path(&self) -> (p: String)
        ensures
            p@ == join_s(join_s(self.home_s(), ".openclaw"@), "openclaw.json"@),
    {
        let b = self.base_dir();
        join(b.as_str(), "openclaw.json")
    }

    /// Where OpenClaw's hooks would be configured: the same `openclaw.json`.
    pub fn hook_config_path(&self) -> (p: String)
        ensures
            p@ == join_s(join_s(self.home_s(), ".openclaw"@), "openclaw.json"@),
    {
        self.mcp_config_path()
    }

    /// OpenClaw can switch its own MCP servers on and off.
    pub fn supports_native_mcp_toggle(&self) -> (b: bool)
        ensures
            b,
    {
        true
    }

    /// The settings files: the config file.
    pub fn global_settings_files(&self) -> (v: Vec<String>)
        ensures
            strs(v@) == seq![join_s(join_s(self.home_s(), ".openclaw"@), "openclaw.json"@)],
    {
        let v = vec![self.mcp_config_path()];
        proof {
            assert(strs(v@) =~= seq![join_s(join_s(self.home_s(), ".openclaw"@), "openclaw.json"@)]);
        }
        v
    }

    /// The plugin directory.
    pub fn plugin_dirs(&self) -> (v: Vec<String>)
        ensures
            strs(v@) == seq![join_s(join_s(self.home_s(), ".openclaw"@), "extensions"@)],
    {
        let b = self.base_dir();
        let v = vec![join(b.as_str(), "extensions")];
        proof {
            assert(strs(v@) =~= seq![join_s(join_s(self.home_s(), ".openclaw"@), "extensions"@)]);
        }
        v
    }

    /// What marks an OpenClaw workspace: a `SOUL.md` file.
    pub fn project_markers(&self) -> (v: Vec<ProjectMarker>)
        ensures
            v@.len() == 1,
            v@[0] matches ProjectMarker::File(n) && n@ == "SOUL.md"@,
    {
        vec![ProjectMarker::File("SOUL.md")]
    }

    /// Where the workspace is, given the parsed config: `~/...` below home,
    /// an absolute path as it is, anything else (or nothing) the
    /// conventional `~/.openclaw/workspace`.
    pub open spec fn workspace_s(&self, config: Option<DocV>) -> Seq<char> {
        let fallback = join_s(join_s(self.home_s(), ".openclaw"@), "workspace"@);
        match workspace_setting_s(config) {
            None => fallback,
            Some(raw) => if starts_with_s(raw, "~/"@) {
                join_s(self.home_s(), raw.skip(2))
            } else if raw.len() > 0 && raw[0] == '/' {
                raw
            } else {
                fallback
            },
        }
    }

    /// `workspace_dir`, given the parsed config (`None` when it is missing
    /// or does not parse).
    pub fn workspace_dir(&self, config: &Option<Doc>) -> (p: String)
        ensures
            p@ == self.workspace_s(odv(*config)),
    {
        let b = self.base_dir();
        let fallback = join(b.as_str(), "workspace");
        let raw = match workspace_setting(config) {
            Some(r) => r,
            None => {
                return fallback;
            },
        };
        if str_starts_with(raw.as_str(), "~/") {
            let c = chars_of(raw.as_str());
            proof {
                reveal_strlit("~/");
            }
            let rest = slice_of(c.as_slice(), 2, c.len());
            proof {
                assert(rest@ =~= raw@.skip(2));
            }
            let r = string_of(rest.as_slice());
            join(self.home.as_str(), r.as_str())
        } else if is_absolute(raw.as_str()) {
            raw
        } else {
            fallback
        }
    }

    /// Where Skills are looked for, in order: the shared root, OpenClaw's
    /// own, and the workspace's.
    pub fn skill_dirs(&self, config: &Option<Doc>) -> (v: Vec<String>)
        ensures
            strs(v@) == seq![
                join_s(join_s(self.home_s(), ".agents"@), "skills"@),
                join_s(join_s(self.home_s(), ".openclaw"@), "skills"@),
                join_s(self.workspace_s(odv(*config)), "skills"@),
            ],
    {
        let agents = join(self.home.as_str(), ".agents");
        let base = self.base_dir();
        let ws = self.workspace_dir(config);
        let v = vec![
            join(agents.as_str(), "skills"),
            join(base.as_str(), "skills"),
            join(ws.as_str(), "skills"),
        ];
        proof {
            assert(strs(v@) =~= seq![
                join_s(join_s(self.home_s(), ".agents"@), "skills"@),
                join_s(join_s(self.home_s(), ".openclaw"@), "skills"@),
                join_s(self.workspace_s(odv(*config)), "skills"@),
            ]);
        }
        v
    }

    /// The persona files, in the workspace.
    pub fn global_rules_files(&self, config: &Option<Doc>) -> (v: Vec<String>)
        ensures
            strs(v@) == persona_names().map_values(
                |n: Seq<char>| join_s(self.workspace_s(odv(*config)), n),
            ),
    {
        let ws = self.workspace_dir(config);
        let names = [
            "AGENTS.md",
            "SOUL.md",
            "IDENTITY.md",
            "USER.md",
            "TOOLS.md",
            "HEARTBEAT.md",
            "DREAMS.md",
        ];
        let mut v: Vec<String> = Vec::new();
        let mut i: usize = 0;
        proof {
            assert(names@.map_values(|n: &str| n@) =~= persona_names());
        }
        while i < names.len()
            invariant
                i <= names@.len(),
                names@.map_values(|n: &str| n@) == persona_names(),
                ws@ == self.workspace_s(odv(*config)),
                strs(v@) == persona_names().take(i as int).map_values(|n: Seq<char>| join_s(ws@, n)),
            decreases names@.len() - i,
        {
            let p = join(ws.as_str(), names[i]);
            let ghost before = v@;
            v.push(p);
            proof {
                assert(persona_names()[i as int] == names@[i as int]@);
                assert(strs(v@) =~= strs(before).push(p@));
                assert(persona_names().take(i + 1).map_values(|n: Seq<char>| join_s(ws@, n))
                    =~= persona_names().take(i as int).map_values(|n: Seq<char>| join_s(ws@, n)).push(
                    p@,
                ));
            }
            i += 1;
        }
        proof {
            assert(persona_names().take(7) =~= persona_names());
        }
        v
    }
}

/// Whether a path names a Markdown file.
pub open spec fn is_markdown(p: Seq<char>) -> bool {
    extension_s(p) == Some("md"@)
}

/// The Markdown files among some paths, in their order.
pub open spec fn markdown_of(found: Seq<Seq<char>>) -> Seq<Seq<char>>
    decreases found.len(),
{
    if found.len() == 0 {
        Seq::empty()
    } else {
        let r = markdown_of(found.drop_last());
        if is_markdown(found.last()) {
            r.push(found.last())
        } else {
            r
        }
    }
}

/// `global_memory_files`, given the workspace and the files found at any
/// depth below its `memory` directory: `MEMORY.md` and the Markdown files
/// among them, sorted by path, each once.
pub fn memory_file_list(workspace: &str, found: &Vec<String>) -> (v: Vec<String>)
    ensures
        sorted_unique(strs(v@)),
        forall|q: Seq<char>|
            listed_path(strs(v@), q) <==> (comps(q) == comps(join_s(workspace@, "MEMORY.md"@))
                || listed_path(markdown_of(strs(found@)), q)),
        forall|i: int|
            0 <= i < v@.len() ==> (#[trigger] v@[i]@ == join_s(workspace@, "MEMORY.md"@)
                || markdown_of(strs(found@)).contains(v@[i]@)),
        forall|i: int|
            0 <= i < v@.len() ==> crate::order::kept_first(
                seq![join_s(workspace@, "MEMORY.md"@)] + markdown_of(strs(found@)),
                #[trigger] v@[i]@,
                markdown_of(strs(found@)).len() as int + 1,
            ),
{
    let main = join(workspace, "MEMORY.md");
    let mut all: Vec<String> = vec![main];
    let ghost head = seq![join_s(workspace@, "MEMORY.md"@)];
    let mut i: usize = 0;
    proof {
        assert(strs(all@) =~= head + markdown_of(strs(found@).take(0)));
    }
    while i < found.len()
        invariant
            i <= found@.len(),
            head == seq![join_s(workspace@, "MEMORY.md"@)],
            strs(all@) == head + markdown_of(strs(found@).take(i as int)),
        decreases found@.len() - i,
    {
        proof {
            assert(strs(found@).take(i + 1).drop_last() =~= strs(found@).take(i as int));
            assert(strs(found@).take(i + 1).last() == found@[i as int]@);
        }
        let md = match extension(found[i].as_str()) {
            Some(e) => str_is(e.as_str(), "md"),
            None => false,
        };
        if md {
            let ghost before = strs(all@);
            all.push(found[i].clone());
            proof {
                assert(strs(all@) =~= before.push(found@[i as int]@));
            }
        }
        i += 1;
    }
    proof {
        assert(strs(found@).take(i as int) =~= strs(found@));
    }
    let v = crate::order::sort_paths(&all);
    proof {
        let m = markdown_of(strs(found@));
        assert(strs(all@) == seq![join_s(workspace@, "MEMORY.md"@)] + m);
        let a = strs(all@);
        assert forall|q: Seq<char>| listed_path(a, q) <==> (comps(q) == comps(
            join_s(workspace@, "MEMORY.md"@),
        ) || listed_path(m, q)) by {
            if listed_path(a, q) {
                let j = choose|j: int| 0 <= j < a.len() && comps(#[trigger] a[j]) == comps(q);
                if j > 0 {
                    assert(a[j] == m[j - 1]);
                }
            }
            if listed_path(m, q) {
                let j = choose|j: int| 0 <= j < m.len() && comps(#[trigger] m[j]) == comps(q);
                assert(a[j + 1] == m[j]);
            }
            if comps(q) == comps(join_s(workspace@, "MEMORY.md"@)) {
                assert(a[0] == join_s(workspace@, "MEMORY.md"@));
            }
        }
        assert forall|i: int| 0 <= i < v@.len() implies (#[trigger] v@[i]@ == join_s(
            workspace@,
            "MEMORY.md"@,
        ) || m.contains(v@[i]@)) by {
            assert(a.contains(v@[i]@));
            let j = choose|j: int| 0 <= j < a.len() && a[j] == v@[i]@;
            if j > 0 {
                assert(m[j - 1] == a[j]);
            }
        }
    }
    v
}

/// The text of member `k`, when it is a string.
pub open spec fn str_member(v: DocV, k: Seq<char>) -> Option<Seq<char>> {
    match get_v(v, k) {
        Some(DocV::Str(s)) => Some(s),
        _ => None,
    }
}

/// The string items of a list, in order.
pub open spec fn string_items(items: Seq<DocV>) -> Seq<Seq<char>>
    decreases items.len(),
{
    if items.len() == 0 {
        Seq::empty()
    } else {
        let r = string_items(items.drop_last());
        match items.last() {
            DocV::Str(s) => r.push(s),
            _ => r,
        }
    }
}

/// The string members of a table, as a map.
pub open spec fn string_pairs(es: Seq<(DocV, DocV)>) -> Map<Seq<char>, Seq<char>>
    decreases es.len(),
{
    if es.len() == 0 {
        Map::empty()
    } else {
        let m = string_pairs(es.drop_last());
        match es.last() {
            (DocV::Str(k), DocV::Str(s)) => m.insert(k, s),
            _ => m,
        }
    }
}

/// The strings of list member `k`.
pub open spec fn string_vec_s(v: DocV, k: Seq<char>) -> Seq<Seq<char>> {
    match get_v(v, k) {
        Some(DocV::List(items)) => string_items(items),
        _ => Seq::empty(),
    }
}

/// The string members of table member `k`.
pub open spec fn string_map_s(v: DocV, k: Seq<char>) -> Map<Seq<char>, Seq<char>> {
    match get_v(v, k) {
        Some(DocV::Table(es)) => string_pairs(es),
        _ => Map::empty(),
    }
}

/// The texts a string map holds.
pub open spec fn texts(m: StrMap<String>) -> Map<Seq<char>, Seq<char>> {
    Map::new(|k: Seq<char>| m@.dom().contains(k), |k: Seq<char>| m@[k]@)
}

/// The transport of a server entry: the named one (`stdio`,
/// `streamable-http`, `sse`), else HTTP when it has a URL, else stdio.
/// `None` for an unknown transport name.
pub open spec fn entry_transport_s(v: DocV) -> Option<McpTransport> {
    match str_member(v, "transport"@) {
        Some(t) => if t == "stdio"@ {
            Some(McpTransport::Stdio)
        } else if t == "streamable-http"@ {
            Some(McpTransport::Http)
        } else if t == "sse"@ {
            Some(McpTransport::Sse)
        } else {
            None
        },
        None => if str_member(v, "url"@) is Some {
            Some(McpTransport::Http)
        } else {
            Some(McpTransport::Stdio)
        },
    }
}

/// A server entry is usable: a known transport, a command for stdio, a URL otherwise.
pub open spec fn entry_parses(v: DocV) -> bool {
    match entry_transport_s(v) {
        None => false,
        Some(t) => if t == McpTransport::Stdio {
            str_member(v, "command"@) is Some
        } else {
            str_member(v, "url"@) is Some
        },
    }
}

/// Whether `e` is what `parse_mcp_entry` makes of server `name` with config `v`.
pub open spec fn entry_ok(e: McpServerEntry, name: Seq<char>, v: DocV) -> bool {
    let t = entry_transport_s(v)->0;
    &&& e.name@ == name
    &&& e.transport == t
    &&& e.command@ == if t == McpTransport::Stdio {
        str_member(v, "command"@)->0
    } else {
        Seq::empty()
    }
    &&& strs(e.args@) == string_vec_s(v, "args"@)
    &&& texts(e.env) == string_map_s(v, "env"@)
    &&& crate::steward::otext(e.url) == str_member(v, "url"@)
    &&& texts(e.headers) == string_map_s(v, "headers"@)
    &&& e.enabled == match get_v(v, "enabled"@) {
        Some(DocV::Bool(b)) => b,
        _ => true,
    }
}

/// `str_member`.
fn member_text(v: &Doc, k: &str) -> (r: Option<String>)
    ensures
        crate::steward::otext(r) == str_member(dv(*v), k@),
{
    match v.get(k) {
        Some(Doc::Str(s)) => Some(s.clone()),
        _ => None,
    }
}

/// `json_string_vec`.
fn string_vec(v: &Doc, k: &str) -> (r: Vec<String>)
    ensures
        strs(r@) == string_vec_s(dv(*v), k@),
{
    let mut r: Vec<String> = Vec::new();
    if let Some(Doc::List(items)) = v.get(k) {
        proof {
            lemma_dv_list(*items);
        }
        let mut i: usize = 0;
        while i < items.len()
            invariant
                i <= items@.len(),
                strs(r@) == string_items(dvs(items@).take(i as int)),
            decreases items@.len() - i,
        {
            proof {
                assert(dvs(items@).take(i + 1).drop_last() =~= dvs(items@).take(i as int));
                assert(dvs(items@).take(i + 1).last() == dv(items@[i as int]));
            }
            if let Doc::Str(s) = &items[i] {
                let ghost before = r@;
                r.push(s.clone());
                proof {
                    assert(strs(r@) =~= strs(before).push(s@));
                }
            }
            i += 1;
        }
        proof {
            assert(dvs(items@).take(i as int) =~= dvs(items@));
        }
    }
    r
}

/// `json_string_map`.
fn string_map(v: &Doc, k: &str) -> (r: StrMap<String>)
    ensures
        texts(r) == string_map_s(dv(*v), k@),
{
    let mut r: StrMap<String> = StrMap::new();
    proof {
        assert(texts(r) =~= Map::<Seq<char>, Seq<char>>::empty());
    }
    if let Some(Doc::Table(es)) = v.get(k) {
        proof {
            lemma_dv_table(*es);
        }
        let mut i: usize = 0;
        proof {
            assert(dvm(es@).take(0) =~= Seq::<(DocV, DocV)>::empty());
        }
        while i < es.len()
            invariant
                i <= es@.len(),
                texts(r) == string_pairs(dvm(es@).take(i as int)),
            decreases es@.len() - i,
        {
            proof {
                assert(dvm(es@).take(i + 1).drop_last() =~= dvm(es@).take(i as int));
                assert(dvm(es@).take(i + 1).last() == (dv(es@[i as int].0), dv(es@[i as int].1)));
            }
            if let (Doc::Str(key), Doc::Str(val)) = &es[i] {
                let ghost before = texts(r);
                r.insert(key.clone(), val.clone());
                proof {
                    assert(texts(r) =~= before.insert(key@, val@));
                }
            }
            i += 1;
        }
        proof {
            assert(dvm(es@).take(i as int) =~= dvm(es@));
        }
    }
    r
}

/// `parse_mcp_entry`.
pub fn parse_mcp_entry(name: &str, value: &Doc) -> (r: Option<McpServerEntry>)
    ensures
        entry_parses(dv(*value)) ==> (r matches Some(e) && entry_ok(e, name@, dv(*value))),
        !entry_parses(dv(*value)) ==> r is None,
{
    let transport_name = member_text(value, "transport");
    let url = member_text(value, "url");
    let command = member_text(value, "command");
    let transport = match transport_name {
        Some(t) => if str_is(t.as_str(), "stdio") {
            McpTransport::Stdio
        } else if str_is(t.as_str(), "streamable-http") {
            McpTransport::Http
        } else if str_is(t.as_str(), "sse") {
            McpTransport::Sse
        } else {
            return None;
        },
        None => if url.is_some() {
            McpTransport::Http
        } else {
            McpTransport::Stdio
        },
    };
    if transport == McpTransport::Stdio && command.is_none() {
        return None;
    }
    if transport != McpTransport::Stdio && url.is_none() {
        return None;
    }
    let enabled = match value.get("enabled") {
        Some(Doc::Bool(b)) => *b,
        _ => true,
    };
    Some(
        McpServerEntry {
            name: name.to_owned(),
            command: if transport == McpTransport::Stdio {
                match command {
                    Some(c) => c,
                    None => String::new(),
                }
            } else {
                String::new()
            },
            args: string_vec(value, "args"),
            env: string_map(value, "env"),
            transport,
            url,
            headers: string_map(value, "headers"),
            enabled,
        },
    )
}

/// The servers of `mcp.servers` that parse, with their names, in order.
pub open spec fn kept_s(es: Seq<(DocV, DocV)>) -> Seq<(Seq<char>, DocV)>
    decreases es.len(),
{
    if es.len() == 0 {
        Seq::empty()
    } else {
        let r = kept_s(es.drop_last());
        match es.last() {
            (DocV::Str(n), v) => if entry_parses(v) {
                r.push((n, v))
            } else {
                r
            },
            _ => r,
        }
    }
}

/// The entries of `mcp.servers` in a parsed config.
pub open spec fn server_table_s(config: Option<DocV>) -> Seq<(DocV, DocV)> {
    match config {
        Some(c) => match get_v(c, "mcp"@) {
            Some(m) => match get_v(m, "servers"@) {
                Some(DocV::Table(es)) => es,
                _ => Seq::empty(),
            },
            None => Seq::empty(),
        },
        None => Seq::empty(),
    }
}

impl OpenClawAdapter {
    /// `read_mcp_servers_from`, given the parsed config (`None` when it is
    /// missing or does not parse): every usable server of `mcp.servers`.
    pub fn read_mcp_servers_from(&self, config: &Option<Doc>) -> (v: Vec<McpServerEntry>)
        ensures
            v@.len() == kept_s(server_table_s(odv(*config))).len(),
            forall|i: int|
                0 <= i < v@.len() ==> entry_ok(
                    #[trigger] v@[i],
                    kept_s(server_table_s(odv(*config)))[i].0,
                    kept_s(server_table_s(odv(*config)))[i].1,
                ),
    {
        let mut v: Vec<McpServerEntry> = Vec::new();
        let c = match config {
            Some(c) => c,
            None => {
                return v;
            },
        };
        let m = match c.get("mcp") {
            Some(m) => m,
            None => {
                return v;
            },
        };
        let servers = match m.get("servers") {
            Some(s) => s,
            None => {
                return v;
            },
        };
        let es = match servers {
            Doc::Table(es) => es,
            _ => {
                return v;
            },
        };
        proof {
            lemma_dv_table(*es);
        }
        let ghost all = dvm(es@);
        let mut i: usize = 0;
        proof {
            assert(all.take(0) =~= Seq::<(DocV, DocV)>::empty());
        }
        while i < es.len()
            invariant
                i <= es@.len(),
                all == dvm(es@),
                all == server_table_s(odv(*config)),
                v@.len() == kept_s(all.take(i as int)).len(),
                forall|q: int|
                    0 <= q < v@.len() ==> entry_ok(
                        #[trigger] v@[q],
                        kept_s(all.take(i as int))[q].0,
                        kept_s(all.take(i as int))[q].1,
                    ),
            decreases es@.len() - i,
        {
            proof {
                assert(all.take(i + 1).drop_last() =~= all.take(i as int));
                assert(all.take(i + 1).last() == (dv(es@[i as int].0), dv(es@[i as int].1)));
            }
            if let Doc::Str(name) = &es[i].0 {
                match parse_mcp_entry(name.as_str(), &es[i].1) {
                    Some(e) => {
                        v.push(e);
                    },
                    None => {},
                }
            }
            i += 1;
        }
        proof {
            assert(all.take(i as int) =~= all);
        }
        v
    }
}

} // verus!

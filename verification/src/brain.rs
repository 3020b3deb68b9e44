//! What the Brain page shows of each agent: its files with short summaries,
//! config previews with secrets hidden, and the names it is shown under.
use vstd::prelude::*;
use crate::doc::{
    dv, dvm, dvs, get_v, lemma_dv_list, lemma_dv_table, lemma_dvm_push, lemma_dvs_push, Doc,
    DocV,
};
use crate::mcp::McpRegistryView;
use crate::openclaw::OpenClawAdapter;
use crate::paths::{split, split_s};
use crate::proposal::{StewardProposal, Timestamp};
use crate::skills::{SkillInventoryEntry, SkillMigrationPlan, SkillOrigin, SkillPlanDecision, SkillPlanItem};
use crate::smap::{keys_increasing, StrMap};
use crate::text::{
    dec_s, chars_of, contains, contains_s, idec, idec_s, join, join_s, lower, lower_s,
    push_str, string_of, strs, trim, trim_s,
};

verus! {

/// The text of a string key; other keys count as empty.
pub open spec fn key_text(k: DocV) -> Seq<char> {
    match k {
        DocV::Str(s) => s,
        _ => Seq::empty(),
    }
}

/// A key whose lower-case form mentions a token, secret, password,
/// credential, authorization, API key or environment.
pub open spec fn sensitive_s(key: Seq<char>) -> bool {
    let k = lower_s(key);
    contains_s(k, "token"@) || contains_s(k, "secret"@) || contains_s(k, "password"@)
        || contains_s(k, "credential"@) || contains_s(k, "authorization"@) || contains_s(
        k,
        "api_key"@,
    ) || contains_s(k, "apikey"@) || contains_s(k, "env"@)
}

/// Whether `key` names something secret.
pub fn is_sensitive_key(key: &str) -> (b: bool)
    ensures
        b == sensitive_s(key@),
{
    let c = chars_of(key);
    let k = lower(c.as_slice());
    let ks = k.as_slice();
    contains(ks, chars_of("token").as_slice()) || contains(ks, chars_of("secret").as_slice())
        || contains(ks, chars_of("password").as_slice()) || contains(
        ks,
        chars_of("credential").as_slice(),
    ) || contains(ks, chars_of("authorization").as_slice()) || contains(
        ks,
        chars_of("api_key").as_slice(),
    ) || contains(ks, chars_of("apikey").as_slice()) || contains(ks, chars_of("env").as_slice())
}

/// The placeholder that stands where a secret was.
pub open spec fn redacted_v() -> DocV {
    DocV::Str("<redacted>"@)
}

/// The entries of a table with every value replaced by the placeholder.
pub open spec fn blank_s(es: Seq<(DocV, DocV)>) -> Seq<(DocV, DocV)> {
    Seq::new(es.len(), |i: int| (es[i].0, redacted_v()))
}

/// A value under a secret key: a table keeps its keys with every value
/// hidden; anything else becomes the placeholder.
pub open spec fn hide_s(c: DocV) -> DocV {
    match c {
        DocV::Table(inner) => DocV::Table(blank_s(inner)),
        _ => redacted_v(),
    }
}

/// `redact_sensitive_values`: `hidden` says whether the value sits under a
/// secret key. Under a secret key every entry is hidden; elsewhere entries
/// with secret keys are hidden and the rest are searched in turn. Lists pass
/// the flag on to their items; any other value under a secret key is hidden.
pub open spec fn redact_s(d: DocV, hidden: bool) -> DocV
    decreases d,
{
    match d {
        DocV::Table(es) => DocV::Table(
            Seq::new(
                es.len(),
                |i: int|
                    if 0 <= i < es.len() {
                        if hidden || sensitive_s(key_text(es[i].0)) {
                            (es[i].0, hide_s(es[i].1))
                        } else {
                            (es[i].0, redact_s(es[i].1, false))
                        }
                    } else {
                        (DocV::Null, DocV::Null)
                    },
            ),
        ),
        DocV::List(items) => DocV::List(
            Seq::new(
                items.len(),
                |i: int|
                    if 0 <= i < items.len() {
                        redact_s(items[i], hidden)
                    } else {
                        DocV::Null
                    },
            ),
        ),
        _ => if hidden {
            redacted_v()
        } else {
            d
        },
    }
}

/// The placeholder.
fn placeholder() -> (d: Doc)
    ensures
        dv(d) == redacted_v(),
{
    Doc::Str("<redacted>".to_owned())
}

/// The text of a key that is a string, else nothing.
fn key_name(k: &Doc) -> (s: String)
    ensures
        s@ == key_text(dv(*k)),
{
    match k {
        Doc::Str(t) => t.clone(),
        _ => String::new(),
    }
}

/// `hide_s`.
fn hidden_copy(c: &Doc) -> (r: Doc)
    ensures
        dv(r) == hide_s(dv(*c)),
{
    match c {
        Doc::Table(es) => {
            let mut out: Vec<(Doc, Doc)> = Vec::new();
            let mut i: usize = 0;
            proof {
                lemma_dv_table(*es);
            }
            while i < es.len()
                invariant
                    i <= es@.len(),
                    dvm(out@) == blank_s(dvm(es@)).take(i as int),
                decreases es@.len() - i,
            {
                let k = es[i].0.dup();
                let v = placeholder();
                proof {
                    lemma_dvm_push(out@, (k, v));
                    assert(blank_s(dvm(es@)).take(i + 1) =~= blank_s(dvm(es@)).take(
                        i as int,
                    ).push((dv(k), dv(v))));
                }
                out.push((k, v));
                i += 1;
            }
            proof {
                assert(blank_s(dvm(es@)).take(es@.len() as int) =~= blank_s(dvm(es@)));
                lemma_dv_table(out);
            }
            Doc::Table(out)
        },
        _ => placeholder(),
    }
}

/// `redact_sensitive_values` on a copy of `d`.
pub fn redacted(d: &Doc, hidden: bool) -> (r: Doc)
    ensures
        dv(r) == redact_s(dv(*d), hidden),
    decreases d,
{
    match d {
        Doc::Table(es) => {
            let ghost want = redact_s(dv(*d), hidden)->Table_0;
            let mut out: Vec<(Doc, Doc)> = Vec::new();
            let mut i: usize = 0;
            proof {
                lemma_dv_table(*es);
            }
            while i < es.len()
                invariant
                    i <= es@.len(),
                    *d == Doc::Table(*es),
                    dv(*d) == DocV::Table(dvm(es@)),
                    want == redact_s(dv(*d), hidden)->Table_0,
                    want.len() == es@.len(),
                    dvm(out@) == want.take(i as int),
                decreases es@.len() - i,
            {
                let k = es[i].0.dup();
                let name = key_name(&es[i].0);
                proof {
                    assert(dvm(es@)[i as int] == (dv(es@[i as int].0), dv(es@[i as int].1)));
                }
                let v = if hidden || is_sensitive_key(name.as_str()) {
                    hidden_copy(&es[i].1)
                } else {
                    proof {
                        assert(decreases_to!(*d => (*d)->Table_0));
                        assert(decreases_to!(*es => es@));
                        assert(decreases_to!(es@ => es@[i as int]));
                        assert(decreases_to!(es@[i as int] => es@[i as int].1));
                    }
                    redacted(&es[i].1, false)
                };
                proof {
                    lemma_dvm_push(out@, (k, v));
                    assert(want[i as int] == (dv(k), dv(v)));
                    assert(want.take(i + 1) =~= want.take(i as int).push((dv(k), dv(v))));
                }
                out.push((k, v));
                i += 1;
            }
            proof {
                assert(want.take(es@.len() as int) =~= want);
                lemma_dv_table(out);
            }
            Doc::Table(out)
        },
        Doc::List(items) => {
            let ghost want = redact_s(dv(*d), hidden)->List_0;
            let mut out: Vec<Doc> = Vec::new();
            let mut i: usize = 0;
            proof {
                lemma_dv_list(*items);
            }
            while i < items.len()
                invariant
                    i <= items@.len(),
                    *d == Doc::List(*items),
                    dv(*d) == DocV::List(dvs(items@)),
                    want == redact_s(dv(*d), hidden)->List_0,
                    want.len() == items@.len(),
                    dvs(out@) == want.take(i as int),
                decreases items@.len() - i,
            {
                proof {
                    assert(decreases_to!(*d => (*d)->List_0));
                    assert(decreases_to!(*items => items@));
                    assert(decreases_to!(items@ => items@[i as int]));
                    assert(dvs(items@)[i as int] == dv(items@[i as int]));
                }
                let v = redacted(&items[i], hidden);
                proof {
                    lemma_dvs_push(out@, v);
                    assert(want[i as int] == dv(v));
                    assert(want.take(i + 1) =~= want.take(i as int).push(dv(v)));
                }
                out.push(v);
                i += 1;
            }
            proof {
                assert(want.take(items@.len() as int) =~= want);
                lemma_dv_list(out);
            }
            Doc::List(out)
        },
        _ => if hidden {
            placeholder()
        } else {
            d.dup()
        },
    }
}

/// How a config value reads in a summary: strings as they are, booleans as
/// `true`/`false`, 64-bit integers in decimal; other numbers by their text
/// only when `any_number` (as `serde_json::Number` prints them).
pub open spec fn scalar_s(d: DocV, any_number: bool) -> Option<Seq<char>> {
    match d {
        DocV::Str(s) => Some(s),
        DocV::Bool(b) => Some(
            if b {
                "true"@
            } else {
                "false"@
            },
        ),
        DocV::Int(i) => Some(idec_s(i)),
        DocV::Num(t) => if any_number {
            Some(t)
        } else {
            None
        },
        _ => None,
    }
}

/// The value reached from `d` through the string keys `parts`.
pub open spec fn walk_s(d: DocV, parts: Seq<Seq<char>>) -> Option<DocV>
    decreases parts.len(),
{
    if parts.len() == 0 {
        Some(d)
    } else {
        match get_v(d, parts[0]) {
            Some(c) => walk_s(c, parts.drop_first()),
            None => None,
        }
    }
}

/// `scalar_s`.
fn scalar(d: &Doc, any_number: bool) -> (r: Option<String>)
    ensures
        match r {
            Some(t) => scalar_s(dv(*d), any_number) == Some(t@),
            None => scalar_s(dv(*d), any_number) is None,
        },
{
    match d {
        Doc::Str(s) => Some(s.clone()),
        Doc::Bool(b) => Some(
            if *b {
                "true".to_owned()
            } else {
                "false".to_owned()
            },
        ),
        Doc::Int(i) => Some(idec(*i)),
        Doc::Num(t) => if any_number {
            Some(t.clone())
        } else {
            None
        },
        _ => None,
    }
}

/// `walk_s`.
fn walk<'a>(d: &'a Doc, parts: &Vec<String>) -> (r: Option<&'a Doc>)
    ensures
        match r {
            Some(x) => walk_s(dv(*d), strs(parts@)) == Some(dv(*x)),
            None => walk_s(dv(*d), strs(parts@)) is None,
        },
{
    let mut cur: &Doc = d;
    let mut i: usize = 0;
    proof {
        assert(strs(parts@).skip(0) =~= strs(parts@));
    }
    while i < parts.len()
        invariant
            i <= parts@.len(),
            walk_s(dv(*d), strs(parts@)) == walk_s(dv(*cur), strs(parts@).skip(i as int)),
        decreases parts@.len() - i,
    {
        proof {
            assert(strs(parts@).skip(i as int)[0] == parts@[i as int]@);
            assert(strs(parts@).skip(i as int).drop_first() =~= strs(parts@).skip(i + 1));
        }
        match cur.get(parts[i].as_str()) {
            Some(next) => {
                cur = next;
            },
            None => {
                return None;
            },
        }
        i += 1;
    }
    proof {
        assert(strs(parts@).skip(i as int) =~= Seq::<Seq<char>>::empty());
    }
    Some(cur)
}

/// A summary field: its label and the keys that lead to it.
pub open spec fn field_v(f: (String, Vec<String>)) -> (Seq<char>, Seq<Seq<char>>) {
    (f.0@, strs(f.1@))
}

/// The fields of a list, viewed.
pub open spec fn fields_v(fs: Seq<(String, Vec<String>)>) -> Seq<(Seq<char>, Seq<Seq<char>>)> {
    fs.map_values(|f: (String, Vec<String>)| field_v(f))
}

/// The config fields the summary of each agent shows, in order.
pub open spec fn summary_fields_s(agent: Seq<char>) -> Seq<(Seq<char>, Seq<Seq<char>>)> {
    if agent == "codex"@ {
        seq![
            ("model"@, seq!["model"@]),
            ("model_reasoning_effort"@, seq!["model_reasoning_effort"@]),
            ("personality"@, seq!["personality"@]),
            ("sandbox_mode"@, seq!["sandbox_mode"@]),
        ]
    } else if agent == "hermes"@ {
        seq![
            ("model"@, seq!["model"@]),
            ("provider"@, seq!["provider"@]),
            ("display.personality"@, seq!["display"@, "personality"@]),
        ]
    } else if agent == "openclaw"@ {
        seq![
            ("agents/defaults/model"@, seq!["agents"@, "defaults"@, "model"@]),
            ("agents/defaults/workspace"@, seq!["agents"@, "defaults"@, "workspace"@]),
        ]
    } else {
        Seq::empty()
    }
}

/// `key=value` for each field that holds a readable value, in order.
pub open spec fn shown_s(d: DocV, fields: Seq<(Seq<char>, Seq<Seq<char>>)>, any_number: bool) -> Seq<
    Seq<char>,
>
    decreases fields.len(),
{
    if fields.len() == 0 {
        Seq::empty()
    } else {
        let rest = shown_s(d, fields.drop_last(), any_number);
        match walk_s(d, fields.last().1) {
            Some(v) => match scalar_s(v, any_number) {
                Some(t) => rest.push(fields.last().0 + "="@ + t),
                None => rest,
            },
            None => rest,
        }
    }
}

/// `config_summary` for a config that was read: its fields, or a fixed line
/// when none can be shown (or the file did not parse, `doc` being `None`).
pub open spec fn config_summary_s(agent: Seq<char>, doc: Option<DocV>) -> Seq<char> {
    let parts = match doc {
        Some(d) => shown_s(d, summary_fields_s(agent), agent == "openclaw"@),
        None => Seq::empty(),
    };
    if parts.len() == 0 {
        "Structured config; sensitive fields hidden"@
    } else {
        join_s(parts, " · "@)
    }
}

/// A list of owned strings.
fn owned(names: &[&str]) -> (r: Vec<String>)
    ensures
        r@.len() == names@.len(),
        forall|i: int| 0 <= i < names@.len() ==> #[trigger] r@[i]@ == names@[i]@,
{
    let mut r: Vec<String> = Vec::new();
    let mut i: usize = 0;
    while i < names.len()
        invariant
            i <= names@.len(),
            r@.len() == i,
            forall|j: int| 0 <= j < i ==> #[trigger] r@[j]@ == names@[j]@,
        decreases names@.len() - i,
    {
        r.push(names[i].to_owned());
        i += 1;
    }
    r
}

/// The fields shown for `agent`.
fn summary_fields(agent: &str) -> (r: Vec<(String, Vec<String>)>)
    ensures
        fields_v(r@) == summary_fields_s(agent@),
{
    let mut r: Vec<(String, Vec<String>)> = Vec::new();
    if crate::text::str_is(agent, "codex") {
        r.push(("model".to_owned(), owned(&["model"])));
        r.push(("model_reasoning_effort".to_owned(), owned(&["model_reasoning_effort"])));
        r.push(("personality".to_owned(), owned(&["personality"])));
        r.push(("sandbox_mode".to_owned(), owned(&["sandbox_mode"])));
    } else if crate::text::str_is(agent, "hermes") {
        r.push(("model".to_owned(), owned(&["model"])));
        r.push(("provider".to_owned(), owned(&["provider"])));
        r.push(("display.personality".to_owned(), owned(&["display", "personality"])));
    } else if crate::text::str_is(agent, "openclaw") {
        r.push(("agents/defaults/model".to_owned(), owned(&["agents", "defaults", "model"])));
        r.push(
            ("agents/defaults/workspace".to_owned(), owned(&["agents", "defaults", "workspace"])),
        );
    }
    proof {
        assert(fields_v(r@) =~~= summary_fields_s(agent@));
    }
    r
}

/// The summary line of an agent's config file that was read and parsed
/// into `doc` (`None` when it did not parse).
pub fn config_summary(agent: &str, doc: &Option<Doc>) -> (s: String)
    ensures
        s@ == config_summary_s(
            agent@,
            match doc {
                Some(d) => Some(dv(*d)),
                None => None,
            },
        ),
{
    let mut parts: Vec<String> = Vec::new();
    if let Some(d) = doc {
        let fields = summary_fields(agent);
        let any_number = crate::text::str_is(agent, "openclaw");
        let mut i: usize = 0;
        while i < fields.len()
            invariant
                i <= fields@.len(),
                strs(parts@) == shown_s(dv(*d), fields_v(fields@).take(i as int), any_number),
            decreases fields@.len() - i,
        {
            proof {
                assert(fields_v(fields@).take(i + 1).drop_last() =~= fields_v(fields@).take(
                    i as int,
                ));
                assert(fields_v(fields@).take(i + 1).last() == field_v(fields@[i as int]));
            }
            match walk(d, &fields[i].1) {
                Some(v) => match scalar(v, any_number) {
                    Some(t) => {
                        let mut line = fields[i].0.clone();
                        push_str(&mut line, "=");
                        push_str(&mut line, t.as_str());
                        let ghost before = parts@;
                        parts.push(line);
                        proof {
                            assert(strs(parts@) =~= strs(before).push(line@));
                        }
                    },
                    None => {},
                },
                None => {},
            }
            i += 1;
        }
        proof {
            assert(fields_v(fields@).take(fields@.len() as int) =~= fields_v(fields@));
        }
    }
    if parts.len() == 0 {
        "Structured config; sensitive fields hidden".to_owned()
    } else {
        join(&parts, " · ")
    }
}

/// The first line that is not blank and does not open an HTML comment, trimmed.
pub open spec fn pick_line(lines: Seq<Seq<char>>) -> Option<Seq<char>>
    decreases lines.len(),
{
    if lines.len() == 0 {
        None
    } else if trim_s(lines[0]).len() > 0 && !crate::text::starts_with_s(trim_s(lines[0]), "<!--"@) {
        Some(trim_s(lines[0]))
    } else {
        pick_line(lines.drop_first())
    }
}

/// `s` without its leading `#` characters.
pub open spec fn strip_hashes(s: Seq<char>) -> Seq<char>
    decreases s.len(),
{
    if s.len() > 0 && s[0] == '#' {
        strip_hashes(s.drop_first())
    } else {
        s
    }
}

/// At most the first `n` characters of `s`.
pub open spec fn first_chars(s: Seq<char>, n: nat) -> Seq<char> {
    if s.len() <= n {
        s
    } else {
        s.take(n as int)
    }
}

/// `text_summary`: for a file that could not be read, `Not created`; else
/// its first meaningful line without heading marks, at most 180 characters.
pub open spec fn text_summary_s(content: Option<Seq<char>>) -> Seq<char> {
    match content {
        None => "Not created"@,
        Some(c) => {
            let line = match pick_line(split_s(c, '\n')) {
                Some(l) => l,
                None => "Empty file"@,
            };
            first_chars(trim_s(strip_hashes(line)), 180)
        },
    }
}

/// The summary line of a text file, given what reading it gave.
pub fn text_summary(content: &Option<String>) -> (s: String)
    ensures
        s@ == text_summary_s(
            match content {
                Some(c) => Some(c@),
                None => None,
            },
        ),
{
    let c = match content {
        None => {
            return "Not created".to_owned();
        },
        Some(c) => c,
    };
    let lines = split(c.as_str(), '\n');
    let mut picked: Option<String> = None;
    let mut i: usize = 0;
    proof {
        assert(strs(lines@).skip(0) =~= strs(lines@));
        assert(strs(lines@).skip(lines@.len() as int) =~= Seq::<Seq<char>>::empty());
    }
    while i < lines.len()
        invariant_except_break
            picked is None,
        invariant
            i <= lines@.len(),
            pick_line(strs(lines@)) == pick_line(strs(lines@).skip(i as int)),
            pick_line(strs(lines@).skip(lines@.len() as int)) is None,
        ensures
            match picked {
                Some(l) => pick_line(strs(lines@)) == Some(l@),
                None => pick_line(strs(lines@)) is None,
            },
        decreases lines@.len() - i,
    {
        proof {
            assert(strs(lines@).skip(i as int)[0] == lines@[i as int]@);
            assert(strs(lines@).skip(i as int).drop_first() =~= strs(lines@).skip(i + 1));
        }
        let t = crate::text::trim_str(lines[i].as_str());
        if !t.as_str().is_empty() && !crate::text::str_starts_with(t.as_str(), "<!--") {
            picked = Some(t);
            break;
        }
        i += 1;
    }
    let line = match picked {
        Some(l) => l,
        None => "Empty file".to_owned(),
    };
    let chars = chars_of(line.as_str());
    let mut a: usize = 0;
    proof {
        assert(chars@.skip(0) =~= chars@);
    }
    while a < chars.len() && chars[a] == '#'
        invariant
            a <= chars@.len(),
            strip_hashes(chars@) == strip_hashes(chars@.skip(a as int)),
        decreases chars@.len() - a,
    {
        proof {
            assert(chars@.skip(a as int).drop_first() =~= chars@.skip(a + 1));
        }
        a += 1;
    }
    let rest = crate::text::slice_of(chars.as_slice(), a, chars.len());
    proof {
        assert(chars@.skip(a as int) =~= chars@.subrange(a as int, chars@.len() as int));
    }
    let t = trim(rest.as_slice());
    if t.len() <= 180 {
        string_of(t.as_slice())
    } else {
        let head = crate::text::slice_of(t.as_slice(), 0, 180);
        proof {
            assert(t@.subrange(0, 180) =~= t@.take(180));
        }
        string_of(head.as_slice())
    }
}

/// A file shown on the Brain page.
pub struct BrainFile {
    pub path: String,
    pub label: String,
    pub summary: String,
    pub exists: bool,
    pub content: Option<String>,
    pub read_only: bool,
}

/// One agent as the Brain page shows it.
pub struct BrainAgent {
    pub id: String,
    pub name: String,
    pub version: Option<String>,
    pub status: String,
    pub config: Vec<BrainFile>,
    pub persona: Vec<BrainFile>,
    pub memory: Vec<BrainFile>,
}

/// A shared Skill, or one that could be shared.
pub struct SharedSkillView {
    pub name: String,
    pub description: String,
    pub source: String,
    pub agents: Vec<String>,
    pub status: String,
}

/// The name an agent is shown under.
pub open spec fn display_name_s(agent: Seq<char>) -> Seq<char> {
    if agent == "codex"@ {
        "Codex"@
    } else if agent == "hermes"@ {
        "Hermes"@
    } else if agent == "openclaw"@ {
        "OpenClaw"@
    } else {
        agent
    }
}

/// `display_name`.
pub fn display_name(agent: &str) -> (r: String)
    ensures
        r@ == display_name_s(agent@),
{
    if crate::text::str_is(agent, "codex") {
        "Codex".to_owned()
    } else if crate::text::str_is(agent, "hermes") {
        "Hermes".to_owned()
    } else if crate::text::str_is(agent, "openclaw") {
        "OpenClaw".to_owned()
    } else {
        agent.to_owned()
    }
}

/// The label of a file: its name, or the whole path when it has none.
pub open spec fn label_s(path: Seq<char>) -> Seq<char> {
    match crate::paths::file_name_s(path) {
        Some(n) => n,
        None => path,
    }
}

/// `brain_file`, given whether the file exists.
pub fn brain_file(path: &str, read_only: bool, summary: String, content: Option<String>, exists: bool) -> (f:
    BrainFile)
    ensures
        f.path@ == path@,
        f.label@ == label_s(path@),
        f.summary == summary,
        f.exists == exists,
        f.content == content,
        f.read_only == read_only,
{
    let mut c = crate::paths::components(path);
    let label = if c.len() > 0 {
        let ghost all = c@;
        let last = c.pop().unwrap();
        proof {
            assert(strs(all).last() == last@);
        }
        let t = chars_of(last.as_str());
        let named = !(t.len() == 1 && t[0] == '/') && !(t.len() == 1 && t[0] == '.') && !(t.len()
            == 2 && t[0] == '.' && t[1] == '.');
        proof {
            if t@ == seq!['/'] || t@ == seq!['.'] {
                assert(t@.len() == 1);
            }
            if t@ == seq!['.', '.'] {
                assert(t@.len() == 2);
            }
            if t@.len() == 1 && t@[0] == '/' {
                assert(t@ =~= seq!['/']);
            }
            if t@.len() == 1 && t@[0] == '.' {
                assert(t@ =~= seq!['.']);
            }
            if t@.len() == 2 && t@[0] == '.' && t@[1] == '.' {
                assert(t@ =~= seq!['.', '.']);
            }
        }
        if named {
            last
        } else {
            path.to_owned()
        }
    } else {
        path.to_owned()
    };
    BrainFile { path: path.to_owned(), label, summary, exists, content, read_only }
}

/// At most the first 65,536 characters of a text that was read.
pub open spec fn preview_s(text: Option<Seq<char>>) -> Option<Seq<char>> {
    match text {
        Some(t) => Some(first_chars(t, 65536)),
        None => None,
    }
}

/// `read_text_preview`, given what reading the file gave.
pub fn text_preview(text: &Option<String>) -> (r: Option<String>)
    ensures
        otext(r) == preview_s(otext(*text)),
{
    match text {
        Some(t) => {
            let c = chars_of(t.as_str());
            if c.len() <= 65536 {
                Some(t.clone())
            } else {
                let head = crate::text::slice_of(c.as_slice(), 0, 65536);
                proof {
                    assert(head@ =~= c@.take(65536));
                }
                Some(string_of(head.as_slice()))
            }
        },
        None => None,
    }
}

/// The characters of an optional string.
pub open spec fn otext(o: Option<String>) -> Option<Seq<char>> {
    match o {
        Some(s) => Some(s@),
        None => None,
    }
}

/// How a memory file is shown, given its size in bytes and its text (`None`
/// when it is not valid UTF-8): complete and editable within the edit limit,
/// else read-only, with a preview when it is too large.
pub open spec fn memory_file_ok(f: BrainFile, path: Seq<char>, bytes: u64, text: Option<Seq<char>>) -> bool {
    let within = bytes <= crate::steward::MAX_MEMORY_EDIT_BYTES;
    let editable = within && text is Some;
    &&& f.path@ == path
    &&& f.label@ == label_s(path)
    &&& f.exists
    &&& f.read_only == !editable
    &&& f.summary@ == dec_s(bytes as nat) + if editable {
        " bytes · private, editable with approval"@
    } else if !within {
        " bytes · private, read-only (over 256 KiB limit)"@
    } else {
        " bytes · private, read-only (not valid UTF-8)"@
    }
    &&& otext(f.content) == if within {
        text
    } else {
        preview_s(text)
    }
}

/// One memory file of `snapshot_agent`, given its size and what reading it gave.
pub fn memory_file(path: &str, bytes: u64, text: Option<String>) -> (f: BrainFile)
    ensures
        memory_file_ok(f, path@, bytes, otext(text)),
{
    let within = bytes <= crate::steward::MAX_MEMORY_EDIT_BYTES as u64;
    let editable = within && text.is_some();
    let mut summary = crate::text::dec(bytes);
    if editable {
        push_str(&mut summary, " bytes · private, editable with approval");
    } else if !within {
        push_str(&mut summary, " bytes · private, read-only (over 256 KiB limit)");
    } else {
        push_str(&mut summary, " bytes · private, read-only (not valid UTF-8)");
    }
    let content = if within {
        text
    } else {
        text_preview(&text)
    };
    brain_file(path, !editable, summary, content, true)
}

/// `snapshot_agent`'s result, given the files it found and whether the agent
/// is installed.
pub fn brain_agent(
    id: &str,
    detected: bool,
    config: Vec<BrainFile>,
    persona: Vec<BrainFile>,
    memory: Vec<BrainFile>,
) -> (a: BrainAgent)
    ensures
        a.id@ == id@,
        a.name@ == display_name_s(id@),
        a.version is None,
        a.status@ == if detected {
            "ready"@
        } else {
            "offline"@
        },
        a.config == config,
        a.persona == persona,
        a.memory == memory,
{
    BrainAgent {
        id: id.to_owned(),
        name: display_name(id),
        version: None,
        status: if detected {
            "ready".to_owned()
        } else {
            "offline".to_owned()
        },
        config,
        persona,
        memory,
    }
}

/// The text of the `SKILL.md` of the Skill directory `path`, if it was read.
pub open spec fn doc_of(docs: StrMap<String>, path: Seq<char>) -> Option<Seq<char>> {
    if docs@.dom().contains(path) {
        Some(docs@[path]@)
    } else {
        None
    }
}

/// The managed agents, in display order.
pub open spec fn brain_agents() -> Seq<Seq<char>> {
    seq!["codex"@, "hermes"@, "openclaw"@]
}

/// The view of a Skill of the shared root: ready for every agent.
pub open spec fn canon_view_ok(v: SharedSkillView, e: SkillInventoryEntry, docs: StrMap<String>) -> bool {
    &&& v.name@ == e.name@
    &&& v.description@ == text_summary_s(doc_of(docs, e.path@))
    &&& v.source@ == e.path@
    &&& strs(v.agents@) == brain_agents()
    &&& v.status@ == "ready"@
}

/// Where a planned Skill is read from: its first copy, else its destination.
pub open spec fn item_source(item: SkillPlanItem) -> Seq<char> {
    if item.sources@.len() > 0 {
        item.sources@[0].path@
    } else {
        item.destination@
    }
}

/// The view of a Skill not yet in the shared root: the agents that have it,
/// and whether it can be set up or conflicts.
pub open spec fn plan_view_ok(v: SharedSkillView, item: SkillPlanItem, docs: StrMap<String>) -> bool {
    &&& v.name@ == item.name@
    &&& v.source@ == item_source(item)
    &&& v.description@ == text_summary_s(doc_of(docs, item_source(item)))
    &&& strs(v.agents@) == item.sources@.map_values(|o: SkillOrigin| o.agent@)
    &&& v.status@ == if item.decision == SkillPlanDecision::Conflict {
        "unavailable"@
    } else {
        "needs_setup"@
    }
}

/// The shared root has a Skill named `n`.
pub open spec fn canon_has(c: Seq<SkillInventoryEntry>, n: Seq<char>) -> bool {
    exists|k: int| 0 <= k < c.len() && #[trigger] c[k].name@ == n
}

/// The plan has an item named `n`.
pub open spec fn plan_has(p: Seq<SkillPlanItem>, n: Seq<char>) -> bool {
    exists|k: int| 0 <= k < p.len() && #[trigger] p[k].name@ == n
}

/// The summary of a Skill's `SKILL.md`.
fn skill_description(docs: &StrMap<String>, path: &str) -> (s: String)
    ensures
        s@ == text_summary_s(doc_of(*docs, path@)),
{
    let text = match docs.get(path) {
        Some(t) => Some(t.clone()),
        None => None,
    };
    text_summary(&text)
}

/// `snapshot_skills`, given the shared root's inventory (in name order), the
/// migration plan, and the `SKILL.md` texts that could be read, by Skill
/// directory: every shared Skill, then every planned Skill the shared root
/// lacks, together in name order.
#[verifier::spinoff_prover]
pub fn snapshot_skills(
    canonical: &Vec<SkillInventoryEntry>,
    plan: &SkillMigrationPlan,
    docs: &StrMap<String>,
) -> (out: Vec<SharedSkillView>)
    requires
        forall|i: int, j: int|
            0 <= i < j < canonical@.len() ==> crate::text::lt_s(
                #[trigger] canonical@[i].name@,
                #[trigger] canonical@[j].name@,
            ),
    ensures
        forall|i: int, j: int|
            0 <= i < j < out@.len() ==> crate::text::lt_s(#[trigger] out@[i].name@, #[trigger] out@[j].name@),
        forall|i: int|
            0 <= i < out@.len() ==> (exists|k: int|
                0 <= k < canonical@.len() && canonical@[k].name@ == #[trigger] out@[i].name@
                    && canon_view_ok(out@[i], canonical@[k], *docs)) || (!canon_has(
                canonical@,
                out@[i].name@,
            ) && exists|k: int|
                0 <= k < plan.items@.len() && plan.items@[k].name@ == out@[i].name@ && plan_view_ok(
                    out@[i],
                    plan.items@[k],
                    *docs,
                )),
        forall|n: Seq<char>|
            canon_has(canonical@, n) || plan_has(plan.items@, n) ==> exists|i: int|
                0 <= i < out@.len() && #[trigger] out@[i].name@ == n,
{
    let mut at: StrMap<(bool, usize)> = StrMap::new();
    let mut a: usize = 0;
    while a < canonical.len()
        invariant
            a <= canonical@.len(),
            forall|i: int, j: int|
                0 <= i < j < canonical@.len() ==> crate::text::lt_s(
                    #[trigger] canonical@[i].name@,
                    #[trigger] canonical@[j].name@,
                ),
            forall|n: Seq<char>|
                #[trigger] at@.dom().contains(n) <==> exists|k: int|
                    0 <= k < a && #[trigger] canonical@[k].name@ == n,
            forall|n: Seq<char>|
                #[trigger] at@.dom().contains(n) ==> at@[n].0 && at@[n].1 < canonical@.len()
                    && canonical@[at@[n].1 as int].name@ == n,
        decreases canonical@.len() - a,
    {
        at.insert(canonical[a].name.clone(), (true, a));
        proof {
            assert forall|n: Seq<char>| #[trigger] at@.dom().contains(n) <==> exists|k: int|
                0 <= k < a + 1 && #[trigger] canonical@[k].name@ == n by {
                if n == canonical@[a as int].name@ {
                    assert(canonical@[a as int].name@ == n);
                }
            }
        }
        a += 1;
    }
    proof {
        assert forall|n: Seq<char>| #[trigger] at@.dom().contains(n) <==> canon_has(canonical@, n) by {
            if canon_has(canonical@, n) {
                let k = choose|k: int| 0 <= k < canonical@.len() && #[trigger] canonical@[k].name@ == n;
                assert(canonical@[k].name@ == n);
            }
        }
    }
    let mut b: usize = 0;
    while b < plan.items.len()
        invariant
            b <= plan.items@.len(),
            forall|n: Seq<char>|
                #[trigger] at@.dom().contains(n) <==> (canon_has(canonical@, n) || exists|k: int|
                    0 <= k < b && #[trigger] plan.items@[k].name@ == n),
            forall|n: Seq<char>|
                #[trigger] at@.dom().contains(n) ==> if at@[n].0 {
                    at@[n].1 < canonical@.len() && canonical@[at@[n].1 as int].name@ == n
                } else {
                    at@[n].1 < plan.items@.len() && plan.items@[at@[n].1 as int].name@ == n
                        && !canon_has(canonical@, n)
                },
        decreases plan.items@.len() - b,
    {
        let name = &plan.items[b].name;
        if !at.contains_key(name.as_str()) {
            proof {
                assert(!at@.dom().contains(name@));
            }
            at.insert(name.clone(), (false, b));
        }
        proof {
            assert forall|n: Seq<char>| #[trigger] at@.dom().contains(n) <==> (canon_has(
                canonical@,
                n,
            ) || exists|k: int| 0 <= k < b + 1 && #[trigger] plan.items@[k].name@ == n) by {
                if n == name@ {
                    assert(plan.items@[b as int].name@ == n);
                }
            }
        }
        b += 1;
    }
    proof {
        use_type_invariant(&at);
        at.lemma_inv();
    }
    let mut out: Vec<SharedSkillView> = Vec::new();
    let mut p: usize = 0;
    while p < at.len()
        invariant
            p <= at.entries().len(),
            out@.len() == p,
            keys_increasing(at.entries()),
            forall|n: Seq<char>|
                #[trigger] at@.dom().contains(n) <==> (canon_has(canonical@, n) || plan_has(
                    plan.items@,
                    n,
                )),
            forall|n: Seq<char>|
                #[trigger] at@.dom().contains(n) ==> if at@[n].0 {
                    at@[n].1 < canonical@.len() && canonical@[at@[n].1 as int].name@ == n
                } else {
                    at@[n].1 < plan.items@.len() && plan.items@[at@[n].1 as int].name@ == n
                        && !canon_has(canonical@, n)
                },
            forall|q: int|
                0 <= q < p ==> #[trigger] out@[q].name@ == at.entries()[q].0@ && ((exists|k: int|
                    0 <= k < canonical@.len() && canonical@[k].name@ == out@[q].name@
                        && canon_view_ok(out@[q], canonical@[k], *docs)) || (!canon_has(
                    canonical@,
                    out@[q].name@,
                ) && exists|k: int|
                    0 <= k < plan.items@.len() && plan.items@[k].name@ == out@[q].name@
                        && plan_view_ok(out@[q], plan.items@[k], *docs))),
        decreases at.entries().len() - p,
    {
        let name = at.key_at(p);
        let (from_root, k) = *at.value_at(p);
        proof {
            crate::smap::lemma_get_at(at.entries(), p as int);
            assert(at@.dom().contains(name@));
        }
        let v = if from_root {
            let e = &canonical[k];
            let v = SharedSkillView {
                name: e.name.clone(),
                description: skill_description(docs, e.path.as_str()),
                source: e.path.clone(),
                agents: vec!["codex".to_owned(), "hermes".to_owned(), "openclaw".to_owned()],
                status: "ready".to_owned(),
            };
            proof {
                assert(strs(v.agents@) =~= brain_agents());
                assert(canon_view_ok(v, canonical@[k as int], *docs));
            }
            v
        } else {
            let item = &plan.items[k];
            let source = if item.sources.len() > 0 {
                item.sources[0].path.clone()
            } else {
                item.destination.clone()
            };
            let mut agents: Vec<String> = Vec::new();
            let mut j: usize = 0;
            while j < item.sources.len()
                invariant
                    j <= item.sources@.len(),
                    strs(agents@) == item.sources@.take(j as int).map_values(|o: SkillOrigin| o.agent@),
                decreases item.sources@.len() - j,
            {
                let ghost before = agents@;
                agents.push(item.sources[j].agent.clone());
                proof {
                    assert(strs(agents@) =~= strs(before).push(item.sources@[j as int].agent@));
                    assert(item.sources@.take(j + 1).map_values(|o: SkillOrigin| o.agent@)
                        =~= item.sources@.take(j as int).map_values(|o: SkillOrigin| o.agent@).push(
                        item.sources@[j as int].agent@,
                    ));
                }
                j += 1;
            }
            proof {
                assert(item.sources@.take(j as int) =~= item.sources@);
            }
            let description = skill_description(docs, source.as_str());
            let v = SharedSkillView {
                name: item.name.clone(),
                description,
                source,
                agents,
                status: if item.decision == SkillPlanDecision::Conflict {
                    "unavailable".to_owned()
                } else {
                    "needs_setup".to_owned()
                },
            };
            proof {
                assert(plan_view_ok(v, plan.items@[k as int], *docs));
            }
            v
        };
        out.push(v);
        p += 1;
    }
    proof {
        assert forall|a: int, b: int| 0 <= a < b < out@.len() implies crate::text::lt_s(
            #[trigger] out@[a].name@,
            #[trigger] out@[b].name@,
        ) by {
            assert(crate::text::lt_s(at.entries()[a].0@, at.entries()[b].0@));
        }
        assert forall|n: Seq<char>| canon_has(canonical@, n) || plan_has(plan.items@, n) implies exists|
            i: int,
        | 0 <= i < out@.len() && #[trigger] out@[i].name@ == n by {
            assert(at@.dom().contains(n));
            crate::smap::lemma_get_found(at.entries(), n);
            let q = choose|q: int|
                0 <= q < at.entries().len() && at.entries()[q].0@ == n && at.entries()[q].1
                    == crate::smap::get_s(at.entries(), n)->0;
            assert(out@[q].name@ == at.entries()[q].0@);
        }
    }
    out
}

/// An agent the Brain page manages, rooted at a home directory.
pub enum BrainAdapter {
    Codex { home: String },
    Hermes { home: String },
    OpenClaw(OpenClawAdapter),
}

impl BrainAdapter {
    /// The agent's name.
    pub open spec fn name_s(self) -> Seq<char> {
        match self {
            BrainAdapter::Codex { .. } => "codex"@,
            BrainAdapter::Hermes { .. } => "hermes"@,
            BrainAdapter::OpenClaw(_) => "openclaw"@,
        }
    }

    /// The home directory the agent lives below.
    pub open spec fn home_s(self) -> Seq<char> {
        match self {
            BrainAdapter::Codex { home } => home@,
            BrainAdapter::Hermes { home } => home@,
            BrainAdapter::OpenClaw(a) => a.home_s(),
        }
    }

    /// The agent's name.
    pub fn name(&self) -> (n: &'static str)
        ensures
            n@ == self.name_s(),
    {
        match self {
            BrainAdapter::Codex { .. } => "codex",
            BrainAdapter::Hermes { .. } => "hermes",
            BrainAdapter::OpenClaw(_) => "openclaw",
        }
    }

    /// Whether the agent's own config can switch an MCP server on and off
    /// in place. Only OpenClaw's adapter is part of this crate, and it can;
    /// the others say no.
    pub fn supports_native_mcp_toggle(&self) -> (b: bool)
        ensures
            b == (*self is OpenClaw),
    {
        match self {
            BrainAdapter::OpenClaw(a) => a.supports_native_mcp_toggle(),
            _ => false,
        }
    }

    /// The agent's own directory below its home: `.codex`, `.hermes` or
    /// `.openclaw`.
    pub open spec fn base_dir_s(self) -> Seq<char> {
        crate::paths::join_s(
            self.home_s(),
            match self {
                BrainAdapter::Codex { .. } => ".codex"@,
                BrainAdapter::Hermes { .. } => ".hermes"@,
                BrainAdapter::OpenClaw(_) => ".openclaw"@,
            },
        )
    }

    /// The agent's own directory.
    pub fn base_dir(&self) -> (p: String)
        ensures
            p@ == self.base_dir_s(),
    {
        match self {
            BrainAdapter::Codex { home } => crate::paths::join(home.as_str(), ".codex"),
            BrainAdapter::Hermes { home } => crate::paths::join(home.as_str(), ".hermes"),
            BrainAdapter::OpenClaw(a) => a.base_dir(),
        }
    }

    /// The name of the agent's settings file in its own directory.
    pub open spec fn settings_name_s(self) -> Seq<char> {
        match self {
            BrainAdapter::Codex { .. } => "config.toml"@,
            BrainAdapter::Hermes { .. } => "config.yaml"@,
            BrainAdapter::OpenClaw(_) => "openclaw.json"@,
        }
    }

    /// The settings files: `config.toml`, `config.yaml` or `openclaw.json`
    /// in the agent's own directory.
    pub fn global_settings_files(&self) -> (v: Vec<String>)
        ensures
            strs(v@) == seq![crate::paths::join_s(self.base_dir_s(), self.settings_name_s())],
    {
        let v = match self {
            BrainAdapter::OpenClaw(a) => a.global_settings_files(),
            _ => {
                let b = self.base_dir();
                let name = match self {
                    BrainAdapter::Codex { .. } => "config.toml",
                    _ => "config.yaml",
                };
                vec![crate::paths::join(b.as_str(), name)]
            },
        };
        proof {
            assert(strs(v@) =~= seq![crate::paths::join_s(self.base_dir_s(), self.settings_name_s())]);
        }
        v
    }

    /// The persona files: Codex's `AGENTS.md` and Hermes's `SOUL.md` in the
    /// agent's own directory; OpenClaw's in its workspace, which its config
    /// (`openclaw_config`) may set.
    pub fn global_rules_files(&self, openclaw_config: &Option<Doc>) -> (v: Vec<String>)
        ensures
            match *self {
                BrainAdapter::Codex { .. } => strs(v@) == seq![crate::paths::join_s(self.base_dir_s(), "AGENTS.md"@)],
                BrainAdapter::Hermes { .. } => strs(v@) == seq![crate::paths::join_s(self.base_dir_s(), "SOUL.md"@)],
                BrainAdapter::OpenClaw(a) => strs(v@) == crate::openclaw::persona_names().map_values(
                    |n: Seq<char>| crate::paths::join_s(a.workspace_s(crate::openclaw::odv(*openclaw_config)), n),
                ),
            },
    {
        match self {
            BrainAdapter::OpenClaw(a) => a.global_rules_files(openclaw_config),
            _ => {
                let b = self.base_dir();
                let name = match self {
                    BrainAdapter::Codex { .. } => "AGENTS.md",
                    _ => "SOUL.md",
                };
                let v = vec![crate::paths::join(b.as_str(), name)];
                proof {
                    assert(strs(v@) =~= seq![crate::paths::join_s(b@, name@)]);
                }
                v
            },
        }
    }

    /// Where Codex and Hermes keep their memory files, `memories` in their
    /// own directory, and whether only Markdown files there count (Codex's
    /// do); `None` for OpenClaw, whose memory lives in its workspace.
    pub fn memory_dir(&self) -> (r: Option<(String, bool)>)
        ensures
            match *self {
                BrainAdapter::Codex { .. } => r matches Some((d, md)) && d@ == crate::paths::join_s(
                    self.base_dir_s(),
                    "memories"@,
                ) && md,
                BrainAdapter::Hermes { .. } => r matches Some((d, md)) && d@ == crate::paths::join_s(
                    self.base_dir_s(),
                    "memories"@,
                ) && !md,
                BrainAdapter::OpenClaw(_) => r is None,
            },
    {
        match self {
            BrainAdapter::OpenClaw(_) => None,
            BrainAdapter::Codex { .. } => {
                let b = self.base_dir();
                Some((crate::paths::join(b.as_str(), "memories"), true))
            },
            BrainAdapter::Hermes { .. } => {
                let b = self.base_dir();
                Some((crate::paths::join(b.as_str(), "memories"), false))
            },
        }
    }
}

/// `adapters_for_home`: Codex, Hermes and OpenClaw, in that order, each
/// below `home`.
pub fn adapters_for_home(home: &str) -> (v: Vec<BrainAdapter>)
    ensures
        v@.len() == 3,
        v@[0].name_s() == "codex"@,
        v@[1].name_s() == "hermes"@,
        v@[2].name_s() == "openclaw"@,
        forall|i: int| 0 <= i < 3 ==> #[trigger] v@[i].home_s() == home@,
{
    vec![
        BrainAdapter::Codex { home: home.to_owned() },
        BrainAdapter::Hermes { home: home.to_owned() },
        BrainAdapter::OpenClaw(OpenClawAdapter::with_home_for_brain(home.to_owned())),
    ]
}

/// The adapter for agent `name` below `home`, or `NotFound` for an agent
/// the Brain page does not manage.
pub fn adapter_named(home: &str, name: &str) -> (r: Result<BrainAdapter, crate::error::HkError>)
    ensures
        (name@ == "codex"@ || name@ == "hermes"@ || name@ == "openclaw"@) ==> (r matches Ok(a) && a.name_s()
            == name@ && a.home_s() == home@),
        !(name@ == "codex"@ || name@ == "hermes"@ || name@ == "openclaw"@) ==> (r matches Err(e) && e@
            == crate::error::HkErrorV::NotFound("agent "@ + name@)),
{
    if crate::text::str_is(name, "codex") {
        Ok(BrainAdapter::Codex { home: home.to_owned() })
    } else if crate::text::str_is(name, "hermes") {
        Ok(BrainAdapter::Hermes { home: home.to_owned() })
    } else if crate::text::str_is(name, "openclaw") {
        Ok(BrainAdapter::OpenClaw(OpenClawAdapter::with_home_for_brain(home.to_owned())))
    } else {
        let mut m = "agent ".to_owned();
        push_str(&mut m, name);
        proof {
            reveal_strlit("agent ");
        }
        Err(crate::error::HkError::NotFound(m))
    }
}

/// Everything the Brain page shows at one moment.
pub struct BrainSnapshot {
    pub agents: Vec<BrainAgent>,
    pub shared_skills: Vec<SharedSkillView>,
    pub mcp_registry: Vec<McpRegistryView>,
    pub proposals: Vec<StewardProposal>,
    pub captured_at: Timestamp,
}

/// What a model may see of one agent: its config and persona, not its memory.
pub struct ContextAgent {
    pub id: String,
    pub status: String,
    pub config: Vec<BrainFile>,
    pub persona: Vec<BrainFile>,
}

/// The snapshot as it is sent to a model.
pub struct ModelContext {
    pub agents: Vec<ContextAgent>,
    pub shared_skills: Vec<SharedSkillView>,
    pub mcp_registry: Vec<McpRegistryView>,
    pub memory_omitted: bool,
}

/// The part of an agent a model sees.
pub open spec fn context_agent(a: BrainAgent) -> ContextAgent {
    ContextAgent { id: a.id, status: a.status, config: a.config, persona: a.persona }
}

/// The agents as a model sees them.
pub open spec fn context_agents(agents: Seq<BrainAgent>) -> Seq<ContextAgent> {
    agents.map_values(|a: BrainAgent| context_agent(a))
}

/// `safe_model_context`: the agents' ids, statuses, configs and personas,
/// the shared Skills and the MCP registry, and the mark that memory was left
/// out. Proposals and the capture time are not sent either.
pub fn safe_model_context(snapshot: BrainSnapshot) -> (c: ModelContext)
    ensures
        c.agents@ == context_agents(snapshot.agents@),
        c.shared_skills == snapshot.shared_skills,
        c.mcp_registry == snapshot.mcp_registry,
        c.memory_omitted,
{
    let BrainSnapshot { agents, shared_skills, mcp_registry, .. } = snapshot;
    let ghost all = agents@;
    let mut rest = agents;
    let mut out: Vec<ContextAgent> = Vec::new();
    let ghost mut taken: int = 0;
    proof {
        assert(all.skip(0) =~= all);
        assert(out@ =~= context_agents(all.take(0)));
    }
    while rest.len() > 0
        invariant
            0 <= taken <= all.len(),
            taken + rest@.len() == all.len(),
            rest@ == all.skip(taken),
            out@ == context_agents(all.take(taken)),
        decreases rest@.len(),
    {
        let x = rest.remove(0);
        proof {
            assert(x == all[taken]);
            assert(rest@ =~= all.skip(taken + 1));
        }
        let BrainAgent { id, status, config, persona, .. } = x;
        out.push(ContextAgent { id, status, config, persona });
        proof {
            assert(out@ =~= context_agents(all.take(taken + 1)));
            taken = taken + 1;
        }
    }
    proof {
        assert(all.take(taken) =~= all);
    }
    ModelContext { agents: out, shared_skills, mcp_registry, memory_omitted: true }
}

/// Memory content is left out of model requests: two snapshots whose agents
/// agree in everything but their memory, and which share the same Skills and
/// MCP rows, give a model the same context.
pub proof fn law_context_ignores_memory(a: BrainSnapshot, b: BrainSnapshot)
    requires
        a.agents@.len() == b.agents@.len(),
        forall|i: int|
            0 <= i < a.agents@.len() ==> (#[trigger] a.agents@[i]).id == b.agents@[i].id
                && a.agents@[i].status == b.agents@[i].status && a.agents@[i].config
                == b.agents@[i].config && a.agents@[i].persona == b.agents@[i].persona,
        a.shared_skills == b.shared_skills,
        a.mcp_registry == b.mcp_registry,
    ensures
        context_agents(a.agents@) == context_agents(b.agents@),
        a.shared_skills == b.shared_skills,
        a.mcp_registry == b.mcp_registry,
{
    assert(context_agents(a.agents@) =~= context_agents(b.agents@));
}

/// Every scalar below a secret key (`under` says whether `d` itself is) is
/// the placeholder.
pub open spec fn no_secret_shown(d: DocV, under: bool) -> bool
    decreases d,
{
    match d {
        DocV::Table(es) => forall|i: int|
            0 <= i < es.len() ==> no_secret_shown(
                #[trigger] es[i].1,
                under || sensitive_s(key_text(es[i].0)),
            ),
        DocV::List(items) => forall|i: int|
            0 <= i < items.len() ==> no_secret_shown(#[trigger] items[i], under),
        _ => under ==> d == redacted_v(),
    }
}

/// A config preview shows no secret: after redaction, every value that sits
/// at any depth below a key naming a token, secret, password, credential,
/// authorization, API key or environment is the placeholder.
pub proof fn law_redaction_hides_secrets(d: DocV, hidden: bool)
    ensures
        no_secret_shown(redact_s(d, hidden), hidden),
    decreases d,
{
    match d {
        DocV::Table(es) => {
            let r = redact_s(d, hidden);
            let res = r->Table_0;
            assert forall|i: int| 0 <= i < res.len() implies no_secret_shown(
                #[trigger] res[i].1,
                hidden || sensitive_s(key_text(res[i].0)),
            ) by {
                assert(res[i].0 == es[i].0);
                if hidden || sensitive_s(key_text(es[i].0)) {
                    let c = es[i].1;
                    if let DocV::Table(inner) = c {
                        let b = blank_s(inner);
                        assert forall|k: int| 0 <= k < b.len() implies no_secret_shown(
                            #[trigger] b[k].1,
                            true || sensitive_s(key_text(b[k].0)),
                        ) by {
                            assert(b[k].1 == redacted_v());
                        }
                        assert(no_secret_shown(hide_s(c), true));
                    }
                } else {
                    assert(decreases_to!(d => es));
                    assert(decreases_to!(es => es[i]));
                    assert(decreases_to!(es[i] => es[i].1));
                    law_redaction_hides_secrets(es[i].1, false);
                }
            }
        },
        DocV::List(items) => {
            let r = redact_s(d, hidden);
            let res = r->List_0;
            assert forall|i: int| 0 <= i < res.len() implies no_secret_shown(#[trigger] res[i], hidden) by {
                assert(decreases_to!(d => items));
                assert(decreases_to!(items => items[i]));
                law_redaction_hides_secrets(items[i], hidden);
            }
        },
        _ => {},
    }
}

} // verus!

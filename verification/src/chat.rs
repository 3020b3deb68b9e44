//! Chatting with the Steward: the request bodies sent to the model, the
//! reading of its reply, and the reply shown to the user.
use vstd::prelude::*;
use crate::doc::{dv, dvm, dvs, lemma_dv_list, lemma_dv_table, Doc, DocV};
use crate::error::{HkError, HkErrorV};
use crate::proposal::StewardProposal;
use crate::text::{
    chars_of, find, find_s, is_blank, push_str, slice_of, starts_with, starts_with_s, ends_with,
    ends_with_s, string_of, str_is, trim, trim_s, trim_str,
};

verus! {

/// Who wrote a chat message.
#[derive(Clone, Copy, PartialEq, Eq, Structural, Debug)]
pub enum StewardChatRole {
    User,
    Steward,
}

/// One message of the conversation so far.
pub struct StewardChatMessage {
    pub role: StewardChatRole,
    pub content: String,
}

/// The Steward's answer, with a proposal when one was made.
pub struct StewardChatReply {
    pub message: String,
    pub proposal: Option<StewardProposal>,
}

/// The model backend's settings.
pub struct StewardConfig {
    pub base_url: String,
    pub model: String,
    pub api_key_env: String,
    pub reasoning_effort: Option<String>,
    pub thinking: bool,
}

/// `"Steward prompt cannot be empty"`.
pub open spec fn empty_prompt() -> HkErrorV {
    HkErrorV::Validation("Steward prompt cannot be empty"@)
}

/// The prompt as `propose` and `chat` take it: trimmed, and not empty.
pub fn steward_prompt(prompt: &str) -> (r: Result<String, HkError>)
    ensures
        trim_s(prompt@).len() == 0 ==> (r matches Err(e) && e@ == empty_prompt()),
        trim_s(prompt@).len() > 0 ==> (r matches Ok(p) && p@ == trim_s(prompt@)),
{
    let t = trim_str(prompt);
    if t.as_str().is_empty() {
        Err(HkError::Validation("Steward prompt cannot be empty".to_owned()))
    } else {
        Ok(t)
    }
}

/// A chat reply split into the text for the user and the proposal block,
/// if the reply has one.
pub struct ParsedChatContent {
    pub message: String,
    pub proposal_text: Option<String>,
}

/// What `parse_chat_content` finds in a reply: the text around the first
/// `<harnesskit-proposal>...</harnesskit-proposal>` block (trimmed, the two
/// sides joined by a line break when both are present) and the block's
/// inside, trimmed, without a surrounding ```` ```json ```` fence. A reply
/// without a complete block is all message.
pub open spec fn parse_chat_s(c: Seq<char>) -> (Seq<char>, Option<Seq<char>>) {
    let open = "<harnesskit-proposal>"@;
    let close = "</harnesskit-proposal>"@;
    match find_s(c, open) {
        None => (trim_s(c), None),
        Some(start) => {
            let ps = start + open.len();
            match find_s(c.skip(ps), close) {
                None => (trim_s(c), None),
                Some(rel) => {
                    let end = ps + rel;
                    let before = trim_s(c.take(start));
                    let after = trim_s(c.skip(end + close.len()));
                    let message = if before.len() > 0 && after.len() > 0 {
                        before + seq!['\n'] + after
                    } else if before.len() > 0 {
                        before
                    } else {
                        after
                    };
                    let raw = trim_s(c.subrange(ps, end));
                    let fenced = starts_with_s(raw, "```json"@) && ends_with_s(
                        raw.skip(7),
                        "```"@,
                    );
                    let inner = if fenced {
                        trim_s(raw.subrange(7, raw.len() - 3))
                    } else {
                        raw
                    };
                    (message, Some(inner))
                },
            }
        },
    }
}

/// `parse_chat_content`, up to reading the block as JSON.
pub fn parse_chat_content(content: &str) -> (r: ParsedChatContent)
    ensures
        (r.message@, match r.proposal_text {
            Some(t) => Some(t@),
            None => None,
        }) == parse_chat_s(content@),
{
    let c = chars_of(content);
    let open = chars_of("<harnesskit-proposal>");
    let close = chars_of("</harnesskit-proposal>");
    let start = match find(c.as_slice(), open.as_slice()) {
        Some(s) => s,
        None => {
            return ParsedChatContent { message: trim_str(content), proposal_text: None };
        },
    };
    proof {
        crate::text::lemma_find(c@, open@);
        assert(crate::text::matches_at(c@, open@, start as int));
        assert(start + open.len() <= c.len());
    }
    let ps = start + open.len();
    let rest = slice_of(c.as_slice(), ps, c.len());
    proof {
        assert(rest@ =~= c@.skip(ps as int));
    }
    let rel = match find(rest.as_slice(), close.as_slice()) {
        Some(r) => r,
        None => {
            return ParsedChatContent { message: trim_str(content), proposal_text: None };
        },
    };
    proof {
        crate::text::lemma_find(rest@, close@);
        assert(crate::text::matches_at(rest@, close@, rel as int));
        assert(rel + close.len() <= rest.len());
    }
    let end = ps + rel;
    let head = slice_of(c.as_slice(), 0, start);
    let tail = slice_of(c.as_slice(), end + close.len(), c.len());
    proof {
        assert(head@ =~= c@.take(start as int));
        assert(tail@ =~= c@.skip(end + close@.len()));
    }
    let before = trim(head.as_slice());
    let after = trim(tail.as_slice());
    let mut message = string_of(before.as_slice());
    if before.len() > 0 && after.len() > 0 {
        crate::text::push_char(&mut message, '\n');
        let a = string_of(after.as_slice());
        push_str(&mut message, a.as_str());
    } else if before.len() == 0 {
        message = string_of(after.as_slice());
    }
    let body = slice_of(c.as_slice(), ps, end);
    let raw = trim(body.as_slice());
    let fence = chars_of("```json");
    let tick = chars_of("```");
    proof {
        reveal_strlit("```json");
        reveal_strlit("```");
        assert(fence@.len() == 7);
        assert(tick@.len() == 3);
    }
    let mut fenced = false;
    if starts_with(raw.as_slice(), fence.as_slice()) {
        let after_fence = slice_of(raw.as_slice(), 7, raw.len());
        proof {
            assert(after_fence@ =~= raw@.skip(7));
        }
        fenced = ends_with(after_fence.as_slice(), tick.as_slice());
    }
    let inner = if fenced {
        proof {
            assert(raw@.skip(7).len() >= 3);
        }
        let mid = slice_of(raw.as_slice(), 7, raw.len() - 3);
        trim(mid.as_slice())
    } else {
        raw
    };
    proof {
        reveal_strlit("<harnesskit-proposal>");
        reveal_strlit("```json");
        assert(open@.len() == 21);
        assert(fence@.len() == 7);
    }
    ParsedChatContent { message, proposal_text: Some(string_of(inner.as_slice())) }
}

/// `append_chat_notice`: a notice goes after a blank line, or stands alone
/// when the message is blank.
pub open spec fn with_notice(message: Seq<char>, notice: Seq<char>) -> Seq<char> {
    if trim_s(message).len() > 0 {
        message + "\n\n"@ + notice
    } else {
        message + notice
    }
}

/// `append_chat_notice`.
pub fn append_chat_notice(message: &mut String, notice: &str)
    ensures
        final(message)@ == with_notice(old(message)@, notice@),
{
    if !is_blank(message.as_str()) {
        push_str(message, "\n\n");
    }
    push_str(message, notice);
}

/// What became of the proposal block of a model's chat reply.
pub enum ProposalOutcome {
    /// The reply had no block.
    NoBlock,
    /// The block did not read as a proposal, for the reason given.
    Unreadable(String),
    /// The proposal read but failed validation.
    Refused(HkError),
    /// The proposal was created.
    Created(StewardProposal),
}

/// The reply text the user sees, given the model's message and what became
/// of its proposal: a note on a block that could not be used, and a fixed
/// line when nothing readable is left.
pub open spec fn reply_text_s(message: Seq<char>, outcome: ProposalOutcome) -> Seq<char> {
    let m = match outcome {
        ProposalOutcome::Unreadable(e) => with_notice(
            message,
            "I could not turn the suggested change into a proposal: "@ + e@,
        ),
        ProposalOutcome::Refused(e) => with_notice(
            message,
            "I could not create that proposal safely: "@ + crate::error::message_of(e@),
        ),
        _ => message,
    };
    if trim_s(m).len() == 0 {
        "I reviewed the agent brains but did not receive a readable answer."@
    } else {
        m
    }
}

/// The reply of `chat` to a free-form prompt.
pub fn chat_reply(message: String, outcome: ProposalOutcome) -> (r: StewardChatReply)
    ensures
        r.message@ == reply_text_s(message@, outcome),
        match outcome {
            ProposalOutcome::Created(p) => r.proposal == Some(p),
            _ => r.proposal is None,
        },
{
    let ghost o = outcome;
    let mut message = message;
    let proposal = match outcome {
        ProposalOutcome::NoBlock => None,
        ProposalOutcome::Unreadable(e) => {
            let mut n = "I could not turn the suggested change into a proposal: ".to_owned();
            push_str(&mut n, e.as_str());
            append_chat_notice(&mut message, n.as_str());
            None
        },
        ProposalOutcome::Refused(e) => {
            let mut n = "I could not create that proposal safely: ".to_owned();
            let m = e.message();
            push_str(&mut n, m.as_str());
            append_chat_notice(&mut message, n.as_str());
            None
        },
        ProposalOutcome::Created(p) => Some(p),
    };
    if is_blank(message.as_str()) {
        message = "I reviewed the agent brains but did not receive a readable answer.".to_owned();
    }
    StewardChatReply { message, proposal }
}

/// The reply of `chat` when the prompt itself was a request the Steward
/// understands.
pub fn prepared_reply(proposal: StewardProposal) -> (r: StewardChatReply)
    ensures
        r.message@ == "I prepared a reviewable proposal: "@ + proposal.title@,
        r.proposal == Some(proposal),
{
    let mut m = "I prepared a reviewable proposal: ".to_owned();
    push_str(&mut m, proposal.title.as_str());
    StewardChatReply { message: m, proposal: Some(proposal) }
}

/// A string value.
pub open spec fn sv(s: Seq<char>) -> DocV {
    DocV::Str(s)
}

/// A chat message as the model API takes it.
pub open spec fn msg_v(role: Seq<char>, content: Seq<char>) -> DocV {
    DocV::Table(seq![(sv("role"@), sv(role)), (sv("content"@), sv(content))])
}

/// The reasoning effort to send: none when unset or blank; one of `low`,
/// `medium`, `high`, `max` (trimmed); anything else is refused.
pub open spec fn effort_s(effort: Option<Seq<char>>) -> Result<Option<Seq<char>>, HkErrorV> {
    match effort {
        None => Ok(None),
        Some(e) => {
            let t = trim_s(e);
            if t.len() == 0 {
                Ok(None)
            } else if t == "low"@ || t == "medium"@ || t == "high"@ || t == "max"@ {
                Ok(Some(t))
            } else {
                Err(
                    HkErrorV::Validation(
                        "unsupported reasoning_effort "@ + crate::text::debug_text(t)
                            + "; expected low, medium, high, or max"@,
                    ),
                )
            }
        },
    }
}

/// The body's members with the reasoning controls added.
pub open spec fn finish_body_s(base: Seq<(DocV, DocV)>, effort: Option<Seq<char>>, thinking: bool) -> Seq<
    (DocV, DocV),
> {
    let b1 = match effort {
        Some(t) => crate::doc::map_insert_s(base, "reasoning_effort"@, sv(t)),
        None => base,
    };
    if thinking {
        crate::doc::map_insert_s(
            b1,
            "thinking"@,
            DocV::Table(seq![(sv("type"@), sv("enabled"@))]),
        )
    } else {
        b1
    }
}

/// The characters of an optional string.
pub open spec fn otext(o: Option<String>) -> Option<Seq<char>> {
    match o {
        Some(s) => Some(s@),
        None => None,
    }
}

/// `build_chat_body`: the proposal request, which asks for a JSON object.
pub open spec fn chat_body_s(cfg: StewardConfig, system: Seq<char>, prompt: Seq<char>) -> Result<DocV, HkErrorV> {
    match effort_s(otext(cfg.reasoning_effort)) {
        Err(e) => Err(e),
        Ok(eff) => Ok(
            DocV::Table(
                finish_body_s(
                    seq![
                        (sv("model"@), sv(cfg.model@)),
                        (sv("temperature"@), DocV::Int(0)),
                        (sv("response_format"@), DocV::Table(seq![(sv("type"@), sv("json_object"@))])),
                        (
                            sv("messages"@),
                            DocV::List(seq![msg_v("system"@, system), msg_v("user"@, prompt)]),
                        ),
                    ],
                    eff,
                    cfg.thinking,
                ),
            ),
        ),
    }
}

/// The earlier messages as the model API takes them: blank ones dropped,
/// the rest trimmed, the Steward's as the assistant's.
pub open spec fn history_s(h: Seq<StewardChatMessage>) -> Seq<DocV>
    decreases h.len(),
{
    if h.len() == 0 {
        Seq::empty()
    } else {
        let rest = history_s(h.drop_last());
        let m = h.last();
        let t = trim_s(m.content@);
        if t.len() == 0 {
            rest
        } else {
            rest.push(
                msg_v(
                    match m.role {
                        StewardChatRole::User => "user"@,
                        StewardChatRole::Steward => "assistant"@,
                    },
                    t,
                ),
            )
        }
    }
}

/// `build_free_chat_body`: the conversation request, in plain text.
pub open spec fn free_chat_body_s(
    cfg: StewardConfig,
    system: Seq<char>,
    history: Seq<StewardChatMessage>,
    prompt: Seq<char>,
) -> Result<DocV, HkErrorV> {
    match effort_s(otext(cfg.reasoning_effort)) {
        Err(e) => Err(e),
        Ok(eff) => Ok(
            DocV::Table(
                finish_body_s(
                    seq![
                        (sv("model"@), sv(cfg.model@)),
                        (sv("temperature"@), DocV::Int(0)),
                        (
                            sv("messages"@),
                            DocV::List(
                                seq![msg_v("system"@, system)] + history_s(history) + seq![
                                    msg_v("user"@, prompt),
                                ],
                            ),
                        ),
                    ],
                    eff,
                    cfg.thinking,
                ),
            ),
        ),
    }
}

/// A string value.
fn text_doc(s: &str) -> (d: Doc)
    ensures
        dv(d) == sv(s@),
{
    Doc::Str(s.to_owned())
}

/// A table of two string members.
fn pair_doc(k1: &str, v1: &str, k2: &str, v2: &str) -> (d: Doc)
    ensures
        dv(d) == DocV::Table(seq![(sv(k1@), sv(v1@)), (sv(k2@), sv(v2@))]),
{
    let es = vec![(text_doc(k1), text_doc(v1)), (text_doc(k2), text_doc(v2))];
    proof {
        lemma_dv_table(es);
        assert(dvm(es@) =~= seq![(sv(k1@), sv(v1@)), (sv(k2@), sv(v2@))]);
    }
    Doc::Table(es)
}

/// A chat message.
fn message_doc(role: &str, content: &str) -> (d: Doc)
    ensures
        dv(d) == msg_v(role@, content@),
{
    pair_doc("role", role, "content", content)
}

/// `effort_s`.
fn effort(cfg: &StewardConfig) -> (r: Result<Option<String>, HkError>)
    ensures
        match effort_s(otext(cfg.reasoning_effort)) {
            Ok(e) => r matches Ok(x) && otext(x) == e,
            Err(e) => r matches Err(x) && x@ == e,
        },
{
    match &cfg.reasoning_effort {
        None => Ok(None),
        Some(e) => {
            let t = trim_str(e.as_str());
            if t.as_str().is_empty() {
                Ok(None)
            } else if str_is(t.as_str(), "low") || str_is(t.as_str(), "medium") || str_is(
                t.as_str(),
                "high",
            ) || str_is(t.as_str(), "max") {
                Ok(Some(t))
            } else {
                let mut m = "unsupported reasoning_effort ".to_owned();
                let d = crate::text::debug_str(t.as_str());
                push_str(&mut m, d.as_str());
                push_str(&mut m, "; expected low, medium, high, or max");
                Err(HkError::Validation(m))
            }
        },
    }
}

/// Adds the reasoning controls to a body's members.
fn finish_body(es: &mut Vec<(Doc, Doc)>, effort: Option<String>, thinking: bool)
    ensures
        dvm(final(es)@) == finish_body_s(dvm(old(es)@), otext(effort), thinking),
{
    if let Some(t) = effort {
        crate::doc::map_insert(es, "reasoning_effort".to_owned(), Doc::Str(t));
    }
    if thinking {
        let v = vec![(text_doc("type"), text_doc("enabled"))];
        proof {
            lemma_dv_table(v);
            assert(dvm(v@) =~= seq![(sv("type"@), sv("enabled"@))]);
        }
        crate::doc::map_insert(es, "thinking".to_owned(), Doc::Table(v));
    }
}

/// `build_chat_body`.
pub fn build_chat_body(config: &StewardConfig, system: String, prompt: &str) -> (r: Result<Doc, HkError>)
    ensures
        match chat_body_s(*config, system@, prompt@) {
            Ok(d) => r matches Ok(x) && dv(x) == d,
            Err(e) => r matches Err(x) && x@ == e,
        },
{
    let format = vec![(text_doc("type"), text_doc("json_object"))];
    let messages = vec![message_doc("system", system.as_str()), message_doc("user", prompt)];
    proof {
        lemma_dv_table(format);
        assert(dvm(format@) =~= seq![(sv("type"@), sv("json_object"@))]);
        lemma_dv_list(messages);
        assert(dvs(messages@) =~= seq![msg_v("system"@, system@), msg_v("user"@, prompt@)]);
    }
    let mut es = vec![
        (text_doc("model"), Doc::Str(config.model.clone())),
        (text_doc("temperature"), Doc::Int(0)),
        (text_doc("response_format"), Doc::Table(format)),
        (text_doc("messages"), Doc::List(messages)),
    ];
    let e = effort(config)?;
    proof {
        assert(dvm(es@) =~= seq![
            (sv("model"@), sv(config.model@)),
            (sv("temperature"@), DocV::Int(0)),
            (sv("response_format"@), DocV::Table(seq![(sv("type"@), sv("json_object"@))])),
            (sv("messages"@), DocV::List(seq![msg_v("system"@, system@), msg_v("user"@, prompt@)])),
        ]);
    }
    finish_body(&mut es, e, config.thinking);
    proof {
        lemma_dv_table(es);
    }
    Ok(Doc::Table(es))
}

/// `history_s`.
fn history_docs(history: &Vec<StewardChatMessage>, out: &mut Vec<Doc>)
    ensures
        dvs(final(out)@) == dvs(old(out)@) + history_s(history@),
{
    let ghost start = dvs(out@);
    let mut i: usize = 0;
    proof {
        assert(history@.take(0) =~= Seq::<StewardChatMessage>::empty());
        assert(dvs(out@) =~= start + history_s(history@.take(0)));
    }
    while i < history.len()
        invariant
            i <= history@.len(),
            dvs(out@) == start + history_s(history@.take(i as int)),
        decreases history@.len() - i,
    {
        proof {
            assert(history@.take(i + 1).drop_last() =~= history@.take(i as int));
            assert(history@.take(i + 1).last() == history@[i as int]);
        }
        let t = trim_str(history[i].content.as_str());
        if !t.as_str().is_empty() {
            let role = match history[i].role {
                StewardChatRole::User => "user",
                StewardChatRole::Steward => "assistant",
            };
            let m = message_doc(role, t.as_str());
            proof {
                crate::doc::lemma_dvs_push(out@, m);
            }
            out.push(m);
            proof {
                assert(dvs(out@) =~= start + history_s(history@.take(i + 1)));
            }
        }
        i += 1;
    }
    proof {
        assert(history@.take(i as int) =~= history@);
    }
}

/// `build_free_chat_body`.
pub fn build_free_chat_body(
    config: &StewardConfig,
    system: String,
    history: &Vec<StewardChatMessage>,
    prompt: &str,
) -> (r: Result<Doc, HkError>)
    ensures
        match free_chat_body_s(*config, system@, history@, prompt@) {
            Ok(d) => r matches Ok(x) && dv(x) == d,
            Err(e) => r matches Err(x) && x@ == e,
        },
{
    let mut messages = vec![message_doc("system", system.as_str())];
    proof {
        assert(dvs(messages@) =~= seq![msg_v("system"@, system@)]);
    }
    history_docs(history, &mut messages);
    let last = message_doc("user", prompt);
    proof {
        crate::doc::lemma_dvs_push(messages@, last);
    }
    messages.push(last);
    proof {
        lemma_dv_list(messages);
        assert(dvs(messages@) =~= seq![msg_v("system"@, system@)] + history_s(history@) + seq![
            msg_v("user"@, prompt@),
        ]);
    }
    let ghost msgs = dvs(messages@);
    let mut es = vec![
        (text_doc("model"), Doc::Str(config.model.clone())),
        (text_doc("temperature"), Doc::Int(0)),
        (text_doc("messages"), Doc::List(messages)),
    ];
    let e = effort(config)?;
    proof {
        assert(dvm(es@) =~= seq![
            (sv("model"@), sv(config.model@)),
            (sv("temperature"@), DocV::Int(0)),
            (sv("messages"@), DocV::List(msgs)),
        ]);
    }
    finish_body(&mut es, e, config.thinking);
    proof {
        lemma_dv_table(es);
    }
    Ok(Doc::Table(es))
}

/// The check `call_openai_compatible` makes of the settings.
pub fn check_backend(config: &StewardConfig) -> (r: Result<(), HkError>)
    ensures
        (trim_s(config.base_url@).len() == 0 || trim_s(config.model@).len() == 0) ==> (r matches Err(
            e,
        ) && e@ == HkErrorV::Validation("Steward base_url and model are required"@)),
        !(trim_s(config.base_url@).len() == 0 || trim_s(config.model@).len() == 0) ==> r is Ok,
{
    if is_blank(config.base_url.as_str()) || is_blank(config.model.as_str()) {
        Err(HkError::Validation("Steward base_url and model are required".to_owned()))
    } else {
        Ok(())
    }
}

/// `s` without its trailing slashes.
pub open spec fn strip_slashes(s: Seq<char>) -> Seq<char>
    decreases s.len(),
{
    if s.len() > 0 && s.last() == '/' {
        strip_slashes(s.drop_last())
    } else {
        s
    }
}

/// The chat completions endpoint below a base URL.
pub fn completion_url(base_url: &str) -> (u: String)
    ensures
        u@ == strip_slashes(base_url@) + "/chat/completions"@,
{
    let c = chars_of(base_url);
    let mut n = c.len();
    proof {
        assert(c@.take(n as int) =~= c@);
    }
    while n > 0 && c[n - 1] == '/'
        invariant
            n <= c@.len(),
            strip_slashes(c@) == strip_slashes(c@.take(n as int)),
        decreases n,
    {
        proof {
            assert(c@.take(n as int).drop_last() =~= c@.take(n - 1));
        }
        n -= 1;
    }
    let head = slice_of(c.as_slice(), 0, n);
    proof {
        assert(head@ =~= c@.take(n as int));
    }
    let mut u = string_of(head.as_slice());
    push_str(&mut u, "/chat/completions");
    u
}

/// One step of a JSON pointer: a member of an object, or an item of an
/// array when the token is an index.
pub open spec fn step_s(d: DocV, token: Seq<char>, index: Option<nat>) -> Option<DocV> {
    match d {
        DocV::Table(_) => crate::doc::get_v(d, token),
        DocV::List(items) => match index {
            Some(i) => if i < items.len() {
                Some(items[i as int])
            } else {
                None
            },
            None => None,
        },
        _ => None,
    }
}

/// The text at `/choices/0/message/content` of a model response.
pub open spec fn reply_content_s(payload: DocV) -> Option<Seq<char>> {
    match step_s(payload, "choices"@, None) {
        None => None,
        Some(a) => match step_s(a, "0"@, Some(0)) {
            None => None,
            Some(b) => match step_s(b, "message"@, None) {
                None => None,
                Some(c) => match step_s(c, "content"@, None) {
                    Some(DocV::Str(t)) => Some(t),
                    _ => None,
                },
            },
        },
    }
}

/// `step_s` for a name.
fn member<'a>(d: &'a Doc, name: &str) -> (r: Option<&'a Doc>)
    ensures
        match r {
            Some(x) => step_s(dv(*d), name@, None) == Some(dv(*x)),
            None => step_s(dv(*d), name@, None) is None,
        },
{
    match d {
        Doc::Table(_) => d.get(name),
        _ => None,
    }
}

/// The message content of a model response.
pub fn reply_content(payload: &Doc) -> (r: Result<String, HkError>)
    ensures
        match reply_content_s(dv(*payload)) {
            Some(t) => r matches Ok(x) && x@ == t,
            None => r matches Err(e) && e@ == HkErrorV::ConfigCorrupted(
                "model response has no message content"@,
            ),
        },
{
    let fail = HkError::ConfigCorrupted("model response has no message content".to_owned());
    let a = match member(payload, "choices") {
        Some(a) => a,
        None => {
            return Err(fail);
        },
    };
    let b = match a {
        Doc::Table(_) => match a.get("0") {
            Some(b) => b,
            None => {
                return Err(fail);
            },
        },
        Doc::List(items) => {
            proof {
                lemma_dv_list(*items);
            }
            if items.len() > 0 {
                &items[0]
            } else {
                return Err(fail);
            }
        },
        _ => {
            return Err(fail);
        },
    };
    let c = match member(b, "message") {
        Some(c) => c,
        None => {
            return Err(fail);
        },
    };
    match member(c, "content") {
        Some(Doc::Str(t)) => Ok(t.clone()),
        _ => Err(fail),
    }
}

/// The environment variable the API key is read from when the backend
/// config names none.
pub fn default_api_key_env() -> (s: String)
    ensures
        s@ == "OPENAI_API_KEY"@,
{
    "OPENAI_API_KEY".to_owned()
}

/// The non-blank characters of `s`, in order.
pub open spec fn visible_s(s: Seq<char>) -> Seq<char> {
    s.filter(|c: char| !crate::text::is_ws(c))
}

/// A blank character adds nothing visible.
proof fn lemma_visible_blank(x: char)
    requires
        crate::text::is_ws(x),
    ensures
        visible_s(seq![x]) == Seq::<char>::empty(),
{
    reveal(Seq::filter);
    assert(seq![x].drop_last() =~= Seq::<char>::empty());
    assert(seq![x].last() == x);
    assert(visible_s(Seq::<char>::empty()) =~= Seq::<char>::empty());
    assert(visible_s(seq![x]) == visible_s(seq![x].drop_last()));
    assert(visible_s(seq![x]) =~= Seq::<char>::empty());
}

/// What is visible of a concatenation.
proof fn lemma_visible_add(a: Seq<char>, b: Seq<char>)
    ensures
        visible_s(a + b) == visible_s(a) + visible_s(b),
{
    Seq::filter_distributes_over_add(a, b, |c: char| !crate::text::is_ws(c));
}

/// Trimming leading space keeps everything visible.
proof fn lemma_visible_trim_start(s: Seq<char>)
    ensures
        visible_s(crate::text::trim_start_s(s)) == visible_s(s),
    decreases s.len(),
{
    if s.len() > 0 && crate::text::is_ws(s[0]) {
        assert(s =~= seq![s[0]] + s.drop_first());
        lemma_visible_add(seq![s[0]], s.drop_first());
        lemma_visible_blank(s[0]);
        assert(visible_s(s) =~= visible_s(s.drop_first()));
        lemma_visible_trim_start(s.drop_first());
    }
}

/// Trimming trailing space keeps everything visible.
proof fn lemma_visible_trim_end(s: Seq<char>)
    ensures
        visible_s(crate::text::trim_end_s(s)) == visible_s(s),
    decreases s.len(),
{
    if s.len() > 0 && crate::text::is_ws(s.last()) {
        assert(s =~= s.drop_last() + seq![s.last()]);
        lemma_visible_add(s.drop_last(), seq![s.last()]);
        lemma_visible_blank(s.last());
        assert(visible_s(s) =~= visible_s(s.drop_last()));
        lemma_visible_trim_end(s.drop_last());
    }
}

/// Trimming keeps everything visible.
proof fn lemma_visible_trim(s: Seq<char>)
    ensures
        visible_s(trim_s(s)) == visible_s(s),
{
    lemma_visible_trim_start(s);
    lemma_visible_trim_end(crate::text::trim_start_s(s));
}

/// A reply without a complete proposal block is all message, trimmed. A
/// reply with one is split at its first `<harnesskit-proposal>` and the
/// first `</harnesskit-proposal>` after it, and the message keeps every
/// non-blank character outside the block, in order: where nothing but
/// space comes before the block the message is the text after it, trimmed;
/// where nothing but space follows, the text before it, trimmed.
pub proof fn law_chat_message_keeps_outside_text(c: Seq<char>)
    ensures
        parse_chat_s(c).1 is None ==> parse_chat_s(c).0 == trim_s(c),
        parse_chat_s(c).1 is Some ==> exists|start: int, end: int|
            #![trigger crate::text::matches_at(c, "<harnesskit-proposal>"@, start), crate::text::matches_at(c, "</harnesskit-proposal>"@, end)]
            {
                &&& crate::text::matches_at(c, "<harnesskit-proposal>"@, start)
                &&& forall|k: int|
                    0 <= k < start ==> !#[trigger] crate::text::matches_at(c, "<harnesskit-proposal>"@, k)
                &&& start + "<harnesskit-proposal>"@.len() <= end
                &&& crate::text::matches_at(c, "</harnesskit-proposal>"@, end)
                &&& forall|k: int|
                    start + "<harnesskit-proposal>"@.len() <= k < end ==> !#[trigger] crate::text::matches_at(
                        c,
                        "</harnesskit-proposal>"@,
                        k,
                    )
                &&& visible_s(parse_chat_s(c).0) == visible_s(c.take(start)) + visible_s(
                    c.skip(end + "</harnesskit-proposal>"@.len()),
                )
                &&& trim_s(c.take(start)).len() == 0 ==> parse_chat_s(c).0 == trim_s(
                    c.skip(end + "</harnesskit-proposal>"@.len()),
                )
                &&& trim_s(c.skip(end + "</harnesskit-proposal>"@.len())).len() == 0 ==> parse_chat_s(c).0
                    == trim_s(c.take(start))
            },
{
    let open = "<harnesskit-proposal>"@;
    let close = "</harnesskit-proposal>"@;
    crate::text::lemma_find(c, open);
    if let Some(start) = find_s(c, open) {
        let ps = start + open.len();
        let rest = c.skip(ps);
        crate::text::lemma_find(rest, close);
        if let Some(rel) = find_s(rest, close) {
            let end = ps + rel;
            assert(rest.subrange(rel, rel + close.len()) =~= c.subrange(end, end + close.len()));
            assert forall|k: int| ps <= k < end implies !#[trigger] crate::text::matches_at(c, close, k) by {
                assert(!crate::text::matches_at(rest, close, k - ps));
                if k + close.len() <= c.len() {
                    assert(rest.subrange(k - ps, k - ps + close.len()) =~= c.subrange(k, k + close.len()));
                }
            }
            let b = c.take(start);
            let a = c.skip(end + close.len());
            lemma_visible_trim(b);
            lemma_visible_trim(a);
            let tb = trim_s(b);
            let ta = trim_s(a);
            if tb.len() > 0 && ta.len() > 0 {
                lemma_visible_add(tb + seq!['\n'], ta);
                lemma_visible_add(tb, seq!['\n']);
                assert(crate::text::is_ws('\n'));
                lemma_visible_blank('\n');
                assert(visible_s(tb) + Seq::<char>::empty() =~= visible_s(tb));
            } else if tb.len() > 0 {
                assert(ta =~= Seq::<char>::empty());
                assert(visible_s(ta) =~= Seq::<char>::empty());
                assert(visible_s(tb) + visible_s(ta) =~= visible_s(tb));
            } else {
                assert(tb =~= Seq::<char>::empty());
                assert(visible_s(tb) =~= Seq::<char>::empty());
                assert(visible_s(tb) + visible_s(ta) =~= visible_s(ta));
            }
            assert(crate::text::matches_at(c, open, start) && crate::text::matches_at(c, close, end));
        }
    }
}

} // verus!

//! What an upstream offers, and whether it works.

use crate::gateway;
use crate::json::{Json, JsonView};
use crate::order;
use crate::text;
use vstd::prelude::*;

verus! {

// ---------------------------------------------------------------------------- model lists
/// The name that an entry of a model list gives: its `id`, or the entry itself.
pub open spec fn entry_name(entry: JsonView) -> Option<Seq<char>> {
    match crate::json::text_member(entry, "id"@) {
        Some(name) => Some(name),
        None => crate::json::text_of(entry),
    }
}

/// The names that a list gives, in its order.
pub open spec fn names_in(entries: Seq<JsonView>) -> Seq<Seq<char>>
    decreases entries.len(),
{
    if entries.len() == 0 {
        Seq::empty()
    } else {
        let before = names_in(entries.drop_last());
        match entry_name(entries.last()) {
            Some(name) => before.push(name),
            None => before,
        }
    }
}

/// The model list in a payload: its `data`, or the payload itself.
pub open spec fn entries_in(payload: JsonView) -> Seq<JsonView> {
    let data = match crate::json::member_of(payload, "data"@) {
        Some(data) => crate::json::items_of(data),
        None => None,
    };
    match data {
        Some(items) => items,
        None => match crate::json::items_of(payload) {
            Some(items) => items,
            None => Seq::empty(),
        },
    }
}

/// The order of names.
pub open spec fn by_name() -> spec_fn(Seq<char>, Seq<char>) -> bool {
    |a: Seq<char>, b: Seq<char>| text::text_le(a, b)
}

/// `s` with each run of equal items cut to one.
pub open spec fn without_repeats(s: Seq<Seq<char>>) -> Seq<Seq<char>>
    decreases s.len(),
{
    if s.len() == 0 {
        s
    } else {
        let before = without_repeats(s.drop_last());
        if s.len() >= 2 && s.last() == s[s.len() - 2] {
            before
        } else {
            before.push(s.last())
        }
    }
}

/// The models that a payload lists, in order and each once.
pub open spec fn model_ids(payload: JsonView) -> Seq<Seq<char>> {
    without_repeats(order::stable_sort(names_in(entries_in(payload)), by_name()))
}

pub(crate) fn precedes_by_name(a: &String, b: &String) -> (r: bool)
    ensures
        r == by_name()(a@, b@),
{
    text::not_after(a.as_str(), b.as_str())
}

fn collect_names(entries: &Vec<Json>) -> (names: Vec<String>)
    ensures
        names.deep_view() == names_in(crate::json::items_view(entries@)),
{
    let ghost all = crate::json::items_view(entries@);
    let mut names: Vec<String> = Vec::new();
    let mut i: usize = 0;
    proof {
        crate::json::lemma_items_view(entries@);
        assert(names.deep_view() =~= names_in(all.take(0)));
    }
    while i < entries.len()
        invariant
            all == crate::json::items_view(entries@),
            all.len() == entries@.len(),
            forall|k: int| 0 <= k < entries@.len() ==> #[trigger] all[k] == entries@[k]@,
            i <= entries@.len(),
            names.deep_view() == names_in(all.take(i as int)),
        decreases entries@.len() - i,
    {
        let ghost before = names.deep_view();
        let entry = &entries[i];
        proof {
            assert(all[i as int] == entry@);
            assert(all.take(i + 1).drop_last() =~= all.take(i as int));
            assert(all.take(i + 1).last() == entry@);
        }
        let name = match entry.get_text("id") {
            Some(name) => Some(name),
            None => match entry.as_str() {
                Some(name) => Some(name.to_owned()),
                None => None,
            },
        };
        match name {
            Some(name) => {
                names.push(name);
                assert(names.deep_view() =~= before.push(name@));
            },
            None => {},
        }
        i = i + 1;
    }
    assert(all.take(i as int) =~= all);
    names
}

fn cut_repeats(names: Vec<String>) -> (r: Vec<String>)
    ensures
        r.deep_view() == without_repeats(names.deep_view()),
{
    let ghost all = names.deep_view();
    let mut r: Vec<String> = Vec::new();
    let mut i: usize = 0;
    proof {
        assert(r.deep_view() =~= without_repeats(all.take(0)));
    }
    while i < names.len()
        invariant
            all == names.deep_view(),
            i <= names@.len(),
            r.deep_view() == without_repeats(all.take(i as int)),
        decreases names@.len() - i,
    {
        let ghost before = r.deep_view();
        proof {
            assert(all.take(i + 1).drop_last() =~= all.take(i as int));
            assert(all.take(i + 1).last() == names@[i as int]@);
            if i >= 1 {
                assert(all.take(i + 1)[i - 1] == names@[i - 1]@);
            }
        }
        if i == 0 || !text::same(names[i].as_str(), names[i - 1].as_str()) {
            r.push(names[i].clone());
            assert(r.deep_view() =~= before.push(names@[i as int]@));
        }
        i = i + 1;
    }
    assert(all.take(i as int) =~= all);
    r
}

/// The models that a payload lists, in order and each once.
pub fn extract_model_ids(payload: &Json) -> (models: Vec<String>)
    ensures
        models.deep_view() == model_ids(payload@),
{
    let data = match payload.get("data") {
        Some(data) => data.as_array(),
        None => None,
    };
    let names = match data {
        Some(entries) => collect_names(entries),
        None => match payload.as_array() {
            Some(entries) => collect_names(entries),
            None => {
                let names: Vec<String> = Vec::new();
                assert(names.deep_view() =~= names_in(Seq::empty()));
                names
            },
        },
    };
    cut_repeats(order::sort_by(names, precedes_by_name, Ghost(by_name())))
}

// ----------------------------------------------------------------------- the chosen model
/// What stands for a model before any is known.
pub open spec fn pending_model() -> Seq<char> {
    "自动获取中"@
}

/// The first model of this name, in letters of any case.
pub open spec fn named(models: Seq<Seq<char>>, name: Seq<char>) -> Option<Seq<char>>
    decreases models.len(),
{
    if models.len() == 0 {
        None
    } else if text::same_letters(models[0], name) {
        Some(models[0])
    } else {
        named(models.drop_first(), name)
    }
}

/// A model made for coding, but not for reviews.
pub open spec fn is_coding_model(model: Seq<char>) -> bool {
    text::occurs_in("codex"@, text::lowered(model)) && !text::occurs_in("review"@, text::lowered(model))
}

/// The first model made for coding.
pub open spec fn first_coding_model(models: Seq<Seq<char>>) -> Option<Seq<char>>
    decreases models.len(),
{
    if models.len() == 0 {
        None
    } else if is_coding_model(models[0]) {
        Some(models[0])
    } else {
        first_coding_model(models.drop_first())
    }
}

/// The names that are preferred, the most preferred first.
pub open spec fn preferred_models() -> Seq<Seq<char>> {
    seq!["gpt-5.6-sol"@, "gpt-5.6"@, "gpt-5.6-terra"@, "gpt-5.3-codex"@, "gpt-5.5"@, "gpt-5.4"@]
}

/// The first of the names for which there is a model.
pub open spec fn first_named(models: Seq<Seq<char>>, names: Seq<Seq<char>>) -> Option<Seq<char>>
    decreases names.len(),
{
    if names.len() == 0 {
        None
    } else if named(models, names[0]) is Some {
        named(models, names[0])
    } else {
        first_named(models, names.drop_first())
    }
}

/// The model for Codex: a preferred one, else one made for coding, else the first one.
pub open spec fn chosen_model(models: Seq<Seq<char>>) -> Seq<char> {
    match first_named(models, preferred_models()) {
        Some(model) => model,
        None => match first_coding_model(models) {
            Some(model) => model,
            None => if models.len() > 0 {
                models[0]
            } else {
                pending_model()
            },
        },
    }
}

fn find_named(models: &Vec<String>, name: &str) -> (r: Option<String>)
    ensures
        r.deep_view() == named(models.deep_view(), name@),
{
    let ghost all = models.deep_view();
    let mut i: usize = 0;
    proof {
        assert(all.skip(0) =~= all);
    }
    while i < models.len()
        invariant
            all == models.deep_view(),
            i <= models@.len(),
            named(all, name@) == named(all.skip(i as int), name@),
        decreases models@.len() - i,
    {
        proof {
            assert(all.skip(i as int)[0] == models@[i as int]@);
            assert(all.skip(i as int).drop_first() =~= all.skip(i + 1));
        }
        if text::eq_ignore_ascii_case(models[i].as_str(), name) {
            return Some(models[i].clone());
        }
        i = i + 1;
    }
    None
}

fn find_coding_model(models: &Vec<String>) -> (r: Option<String>)
    ensures
        r.deep_view() == first_coding_model(models.deep_view()),
{
    let ghost all = models.deep_view();
    let mut i: usize = 0;
    proof {
        assert(all.skip(0) =~= all);
    }
    while i < models.len()
        invariant
            all == models.deep_view(),
            i <= models@.len(),
            first_coding_model(all) == first_coding_model(all.skip(i as int)),
        decreases models@.len() - i,
    {
        proof {
            assert(all.skip(i as int)[0] == models@[i as int]@);
            assert(all.skip(i as int).drop_first() =~= all.skip(i + 1));
        }
        let lower = text::ascii_lowercase(models[i].as_str());
        if text::contains(lower.as_str(), "codex") && !text::contains(lower.as_str(), "review") {
            return Some(models[i].clone());
        }
        i = i + 1;
    }
    None
}

/// The model for Codex: a preferred one, else one made for coding, else the first one.
pub fn select_codex_model(models: &Vec<String>) -> (model: String)
    ensures
        model@ == chosen_model(models.deep_view()),
{
    let ghost all = models.deep_view();
    let preferred: [&str; 6] = ["gpt-5.6-sol", "gpt-5.6", "gpt-5.6-terra", "gpt-5.3-codex", "gpt-5.5", "gpt-5.4"];
    let ghost names = preferred_models();
    proof {
        assert(names.skip(0) =~= names);
    }
    let mut i: usize = 0;
    while i < 6
        invariant
            i <= 6,
            all == models.deep_view(),
            names == preferred_models(),
            preferred@.len() == 6,
            forall|k: int| 0 <= k < 6 ==> #[trigger] preferred@[k]@ == names[k],
            first_named(all, names) == first_named(all, names.skip(i as int)),
        decreases 6 - i,
    {
        proof {
            assert(preferred@[i as int]@ == names[i as int]);
            assert(names.skip(i as int)[0] == names[i as int]);
            assert(names.skip(i as int).drop_first() =~= names.skip(i + 1));
        }
        match find_named(models, preferred[i]) {
            Some(model) => {
                return model;
            },
            None => {},
        }
        i = i + 1;
    }
    match find_coding_model(models) {
        Some(model) => model,
        None => if models.len() > 0 {
            models[0].clone()
        } else {
            "自动获取中".to_owned()
        },
    }
}

// ------------------------------------------------------------------------------- findings
/// What came back when an upstream was asked for its models.
#[derive(Debug)]
pub enum ModelsReply {
    /// A body, with a status that says success. Where it is no JSON, the HTTP client says only that it
    /// could not be decoded.
    Body(Vec<u8>),
    /// Such a status, but no body that could be read.
    Unreadable(String),
    /// Another status.
    Refused(u16),
    /// No response at all.
    Unreachable(String),
}

/// A status that says success.
pub open spec fn is_success(status: u16) -> bool {
    200 <= status < 300
}

/// Whether the body of a response is worth reading: only behind a status that says success.
pub fn wants_body(status: u16) -> (r: bool)
    ensures
        r == is_success(status),
{
    200 <= status && status < 300
}

/// What came back, from the status of a response and its body or what was wrong with reading it. Behind
/// a status that says no success the body plays no part.
pub fn models_reply(status: u16, body: Result<Vec<u8>, String>) -> (reply: ModelsReply)
    ensures
        reply == if is_success(status) {
            match body {
                Ok(bytes) => ModelsReply::Body(bytes),
                Err(error) => ModelsReply::Unreadable(error),
            }
        } else {
            ModelsReply::Refused(status)
        },
{
    if wants_body(status) {
        match body {
            Ok(bytes) => ModelsReply::Body(bytes),
            Err(error) => ModelsReply::Unreadable(error),
        }
    } else {
        ModelsReply::Refused(status)
    }
}

/// What is known of an upstream after it was asked.
#[derive(Debug)]
pub enum Finding {
    /// It lists these models, and this one would be used.
    Listed(String, Vec<String>),
    /// It responds, but not as it should.
    Faulty(String),
    /// It does not respond.
    Unreachable(String),
}

/// What a finding holds.
pub enum FindingView {
    Listed(Seq<char>, Seq<Seq<char>>),
    Faulty(Seq<char>),
    Unreachable(Seq<char>),
}

impl View for Finding {
    type V = FindingView;

    open spec fn view(&self) -> FindingView {
        match self {
            Finding::Listed(model, models) => FindingView::Listed(model@, models.deep_view()),
            Finding::Faulty(message) => FindingView::Faulty(message@),
            Finding::Unreachable(message) => FindingView::Unreachable(message@),
        }
    }
}

/// What a list of models says of the upstream that sent it.
pub open spec fn listing(payload: JsonView) -> FindingView {
    let models = model_ids(payload);
    if models.len() == 0 {
        FindingView::Faulty("/models 没有返回可用模型"@)
    } else {
        FindingView::Listed(chosen_model(models), models)
    }
}

/// What a list of models says of the upstream that sent it.
pub fn assess_listing(payload: &Json) -> (finding: Finding)
    ensures
        finding@ == listing(payload@),
{
    let models = extract_model_ids(payload);
    if models.len() == 0 {
        Finding::Faulty("/models 没有返回可用模型".to_owned())
    } else {
        Finding::Listed(select_codex_model(&models), models)
    }
}

/// What a reply says of the upstream that gave it.
pub open spec fn finding_of(reply: ModelsReply) -> FindingView {
    match reply {
        ModelsReply::Body(bytes) => match crate::json::json_parsed(bytes@) {
            Some(payload) => listing(payload),
            None => FindingView::Faulty("模型列表不是有效 JSON: error decoding response body"@),
        },
        ModelsReply::Unreadable(error) => FindingView::Faulty("模型列表不是有效 JSON: "@ + error@),
        ModelsReply::Refused(status) => FindingView::Faulty("HTTP "@ + gateway::status_text(status)),
        ModelsReply::Unreachable(error) => FindingView::Unreachable(error@),
    }
}

/// What a reply says of the upstream that gave it.
pub fn assess_models(reply: ModelsReply) -> (finding: Finding)
    requires
        reply matches ModelsReply::Refused(status) ==> 100 <= status <= 999,
    ensures
        finding@ == finding_of(reply),
{
    match reply {
        ModelsReply::Body(bytes) => match Json::parse(bytes.as_slice()) {
            Ok(payload) => assess_listing(&payload),
            Err(_) => Finding::Faulty("模型列表不是有效 JSON: error decoding response body".to_owned()),
        },
        ModelsReply::Unreadable(error) => Finding::Faulty(text::cat("模型列表不是有效 JSON: ", error.as_str())),
        ModelsReply::Refused(status) => {
            let words = gateway::write_status(status);
            Finding::Faulty(text::cat("HTTP ", words.as_str()))
        },
        ModelsReply::Unreachable(error) => Finding::Unreachable(error),
    }
}

// -------------------------------------------------------------------------------- probing
/// The smallest request that shows whether a key works.
pub open spec fn probe_payload(model: Seq<char>) -> JsonView {
    JsonView::Object(
        Map::empty().insert("model"@, JsonView::Str(model)).insert("input"@, JsonView::Str("Reply with OK."@)).insert(
            "max_output_tokens"@,
            JsonView::Whole(16),
        ).insert("stream"@, JsonView::Bool(false)).insert("store"@, JsonView::Bool(false)),
    )
}

/// The smallest request that shows whether a key works.
pub fn probe_request(model: &str) -> (body: Vec<u8>)
    ensures
        body@ == crate::json::json_written(probe_payload(model@)),
        crate::json::json_parsed(body@) == Some(probe_payload(model@)),
{
    let payload = Json::object().and("model", Json::Str(model.to_owned())).and(
        "input",
        Json::Str("Reply with OK.".to_owned()),
    ).and("max_output_tokens", Json::Unsigned(16)).and("stream", Json::Bool(false)).and("store", Json::Bool(false));
    proof {
        reveal_with_fuel(crate::json::is_shallow, 2);
        assert(crate::json::is_shallow(payload@, crate::json::MAX_NESTING as nat));
    }
    payload.to_bytes()
}

/// A payload that looks like a response of the interface.
pub open spec fn looks_like_response(payload: JsonView) -> bool {
    ||| crate::json::text_member(payload, "id"@) is Some
    ||| crate::json::text_member(payload, "object"@) == Some("response"@)
    ||| (crate::json::member_of(payload, "output"@) matches Some(output) && crate::json::items_of(output) is Some)
}

/// Whether a payload looks like a response of the interface.
pub fn is_valid_response_payload(payload: &Json) -> (r: bool)
    ensures
        r == looks_like_response(payload@),
{
    if payload.get_text("id").is_some() {
        return true;
    }
    let object = payload.get_text("object");
    if text::is_exactly(&object, "response") {
        return true;
    }
    match payload.get("output") {
        Some(output) => output.as_array().is_some(),
        None => false,
    }
}

/// What came back from a probe.
#[derive(Debug)]
pub enum ProbeReply {
    /// No response at all.
    Unsent(String),
    /// A response whose body could not be read.
    Unreadable(String),
    /// A status and a body.
    Answer(u16, String),
}

/// How much of the body of a refusal is repeated.
pub const SUMMARY_LIMIT: usize = 180;

/// The first characters of the body of a refusal.
pub open spec fn summary(body: Seq<char>) -> Seq<char> {
    if body.len() > SUMMARY_LIMIT {
        body.take(SUMMARY_LIMIT as int)
    } else {
        body
    }
}

/// What is wrong with the answer to a probe, if anything is.
pub open spec fn probe_problem(model: Seq<char>, reply: ProbeReply) -> Option<Seq<char>> {
    match reply {
        ProbeReply::Unsent(error) => Some("模型请求失败: "@ + error@),
        ProbeReply::Unreadable(error) => Some("无法读取模型响应: "@ + error@),
        ProbeReply::Answer(status, body) => if !gateway::is_success(status) {
            Some("模型 "@ + model + " /responses 返回 HTTP "@ + gateway::status_text(status) + ": "@ + summary(body@))
        } else {
            match crate::json::text_parsed(body@) {
                None => Some(
                    "模型 "@ + model + " 返回的不是有效 JSON: "@ + crate::json::json_error(
                        vstd::utf8::encode_utf8(body@),
                    ),
                ),
                Some(payload) => payload_problem(model, payload),
            }
        },
    }
}

/// What is wrong with the payload of an answer, if anything is.
pub open spec fn payload_problem(model: Seq<char>, payload: JsonView) -> Option<Seq<char>> {
    if looks_like_response(payload) {
        None
    } else {
        Some("模型 "@ + model + " 未返回有效 Responses 结果"@)
    }
}

/// Finds fault with the payload of an answer.
pub fn check_payload(model: &str, payload: &Json) -> (problem: Option<String>)
    ensures
        problem.deep_view() == payload_problem(model@, payload@),
{
    if is_valid_response_payload(payload) {
        None
    } else {
        Some(text::cat3("模型 ", model, " 未返回有效 Responses 结果"))
    }
}

/// Finds fault with the answer to a probe.
pub fn judge_probe(model: &str, reply: ProbeReply) -> (problem: Option<String>)
    requires
        reply matches ProbeReply::Answer(status, _) ==> 100 <= status <= 999,
    ensures
        problem.deep_view() == probe_problem(model@, reply),
{
    match reply {
        ProbeReply::Unsent(error) => Some(text::cat("模型请求失败: ", error.as_str())),
        ProbeReply::Unreadable(error) => Some(text::cat("无法读取模型响应: ", error.as_str())),
        ProbeReply::Answer(status, body) => {
            if !(200 <= status && status <= 299) {
                let words = gateway::write_status(status);
                let start = text::first_chars(body.as_str(), SUMMARY_LIMIT);
                proof {
                    if body@.len() <= SUMMARY_LIMIT {
                        assert(body@.take(body@.len() as int) =~= body@);
                    }
                }
                let mut message = text::cat3("模型 ", model, " /responses 返回 HTTP ");
                message.append(words.as_str());
                message.append(": ");
                message.append(start.as_str());
                return Some(message);
            }
            match Json::parse_text(body.as_str()) {
                Ok(payload) => check_payload(model, &payload),
                Err(error) => {
                    let mut message = text::cat3("模型 ", model, " 返回的不是有效 JSON: ");
                    message.append(error.as_str());
                    Some(message)
                },
            }
        },
    }
}

// ------------------------------------------------------------------------------------ laws
/// Every item is before every later one and differs from it.
pub open spec fn is_strictly_ascending(s: Seq<Seq<char>>) -> bool {
    forall|i: int, j: int| 0 <= i < j < s.len() ==> text::text_le(s[i], s[j]) && #[trigger] s[i] != #[trigger] s[j]
}

/// The order of names compares any two of them, and transitively.
pub proof fn lemma_names_rank()
    ensures
        order::is_ranking(by_name()),
{
    let le = by_name();
    assert forall|a: Seq<char>, b: Seq<char>| #[trigger] le(a, b) || le(b, a) by {
        text::lemma_text_order(a, b, b);
    }
    assert forall|a: Seq<char>, b: Seq<char>, c: Seq<char>| #[trigger] le(a, b) && #[trigger] le(b, c) implies le(
        a,
        c,
    ) by {
        text::lemma_text_order(a, b, c);
    }
}

proof fn lemma_without_repeats(s: Seq<Seq<char>>)
    requires
        order::is_ascending(s, by_name()),
    ensures
        s.len() > 0 ==> without_repeats(s).len() > 0 && without_repeats(s).last() == s.last(),
        is_strictly_ascending(without_repeats(s)),
        forall|name: Seq<char>| s.contains(name) <==> without_repeats(s).contains(name),
    decreases s.len(),
{
    let le = by_name();
    if s.len() > 0 {
        let t = s.drop_last();
        let r = without_repeats(s);
        let before = without_repeats(t);
        assert forall|i: int, j: int| 0 <= i < j < t.len() implies #[trigger] le(t[i], t[j]) by {
            assert(le(s[i], s[j]));
        }
        lemma_without_repeats(t);
        assert(s =~= t.push(s.last()));
        assert forall|name: Seq<char>| s.contains(name) <==> r.contains(name) by {
            if s.contains(name) {
                let k = choose|k: int| 0 <= k < s.len() && s[k] == name;
                if k < t.len() {
                    assert(t[k] == name);
                    assert(t.contains(name));
                    assert(before.contains(name));
                    let m = choose|m: int| 0 <= m < before.len() && before[m] == name;
                    assert(r[m] == name);
                } else if s.len() >= 2 && s.last() == s[s.len() - 2] {
                    assert(before.last() == name);
                    assert(r[before.len() - 1] == name);
                } else {
                    assert(r[r.len() - 1] == name);
                }
            }
            if r.contains(name) {
                let m = choose|m: int| 0 <= m < r.len() && r[m] == name;
                if m < before.len() {
                    assert(before[m] == name);
                    assert(before.contains(name));
                    assert(t.contains(name));
                    let k = choose|k: int| 0 <= k < t.len() && t[k] == name;
                    assert(s[k] == name);
                } else {
                    assert(s[s.len() - 1] == name);
                }
            }
        }
        if !(s.len() >= 2 && s.last() == s[s.len() - 2]) {
            assert forall|i: int, j: int| 0 <= i < j < r.len() implies text::text_le(r[i], r[j]) && #[trigger] r[i]
                != #[trigger] r[j] by {
                if j == before.len() {
                    assert(t.len() > 0);
                    let prior = t.last();
                    assert(le(s[s.len() - 2], s[s.len() - 1]));
                    assert(text::text_le(prior, s.last()));
                    assert(prior != s.last());
                    assert(before.last() == prior);
                    if i < before.len() - 1 {
                        assert(text::text_le(before[i], before[before.len() - 1]));
                        assert(before[i] != before[before.len() - 1]);
                    }
                    text::lemma_text_order(before[i], prior, s.last());
                    text::lemma_text_order(prior, before[i], prior);
                    if before[i] == s.last() {
                        text::lemma_text_order(prior, s.last(), prior);
                    }
                } else {
                    assert(before[i] != before[j]);
                }
            }
        }
    }
}

/// A model list is in order, names nothing twice, and names exactly what the upstream listed.
pub proof fn law_model_lists_are_sorted_sets(payload: JsonView)
    ensures
        is_strictly_ascending(model_ids(payload)),
        forall|name: Seq<char>|
            names_in(entries_in(payload)).contains(name) <==> #[trigger] model_ids(payload).contains(name),
{
    broadcast use vstd::seq_lib::group_to_multiset_ensures;

    let names = names_in(entries_in(payload));
    let sorted = order::stable_sort(names, by_name());
    lemma_names_rank();
    order::lemma_sort_ascending(names, by_name());
    order::lemma_sort_keeps_items(names, by_name());
    lemma_without_repeats(sorted);
    assert forall|name: Seq<char>|
        names.contains(name) <==> #[trigger] model_ids(payload).contains(name) by {
        assert(names.contains(name) <==> names.to_multiset().contains(name));
        assert(sorted.contains(name) <==> sorted.to_multiset().contains(name));
    }
}

proof fn lemma_named(models: Seq<Seq<char>>, name: Seq<char>)
    ensures
        named(models, name) matches Some(model) ==> models.contains(model) && text::same_letters(model, name),
        named(models, name) is None ==> forall|i: int|
            0 <= i < models.len() ==> !text::same_letters(#[trigger] models[i], name),
    decreases models.len(),
{
    if models.len() > 0 {
        let rest = models.drop_first();
        lemma_named(rest, name);
        if named(models, name) is None {
            assert forall|i: int| 0 <= i < models.len() implies !text::same_letters(#[trigger] models[i], name) by {
                if i > 0 {
                    assert(rest[i - 1] == models[i]);
                }
            }
        } else if !text::same_letters(models[0], name) {
            let model = named(rest, name)->0;
            let k = choose|k: int| 0 <= k < rest.len() && rest[k] == model;
            assert(models[k + 1] == model);
        } else {
            assert(models[0] == named(models, name)->0);
        }
    }
}

proof fn lemma_first_named(models: Seq<Seq<char>>, names: Seq<Seq<char>>)
    ensures
        first_named(models, names) matches Some(model) ==> models.contains(model),
    decreases names.len(),
{
    if names.len() > 0 {
        lemma_named(models, names[0]);
        lemma_first_named(models, names.drop_first());
    }
}

proof fn lemma_first_coding_model(models: Seq<Seq<char>>)
    ensures
        first_coding_model(models) matches Some(model) ==> models.contains(model),
    decreases models.len(),
{
    if models.len() > 0 {
        let rest = models.drop_first();
        lemma_first_coding_model(rest);
        if is_coding_model(models[0]) {
            assert(models[0] == first_coding_model(models)->0);
        } else if first_coding_model(models) is Some {
            let model = first_coding_model(rest)->0;
            let k = choose|k: int| 0 <= k < rest.len() && rest[k] == model;
            assert(models[k + 1] == model);
        }
    }
}

/// The model that is chosen for Codex is one that the upstream lists.
pub proof fn law_chosen_model_is_listed(models: Seq<Seq<char>>)
    requires
        models.len() > 0,
    ensures
        models.contains(chosen_model(models)),
{
    lemma_first_named(models, preferred_models());
    lemma_first_coding_model(models);
    assert(models.contains(models[0]));
}

/// Where an upstream lists the most preferred model, that one is chosen, whatever else it lists.
pub proof fn law_most_preferred_model_wins(models: Seq<Seq<char>>, i: int)
    requires
        0 <= i < models.len(),
        text::same_letters(models[i], "gpt-5.6-sol"@),
    ensures
        text::same_letters(chosen_model(models), "gpt-5.6-sol"@),
{
    lemma_named(models, "gpt-5.6-sol"@);
    assert(preferred_models()[0] == "gpt-5.6-sol"@);
}

/// An upstream lists a model where that is among its models in letters of any case.
pub open spec fn lists(models: Seq<Seq<char>>, name: Seq<char>) -> bool {
    exists|i: int| 0 <= i < models.len() && text::same_letters(#[trigger] models[i], name)
}

/// The model for Codex is the first of these that the upstream lists: gpt-5.6-sol, gpt-5.6, gpt-5.6-terra,
/// gpt-5.3-codex, gpt-5.5, gpt-5.4. It is spelled as the upstream spells it.
pub proof fn law_preferred_models_in_their_order(models: Seq<Seq<char>>)
    ensures
        ({
            let chosen = chosen_model(models);
            let sol = lists(models, "gpt-5.6-sol"@);
            let plain = lists(models, "gpt-5.6"@);
            let terra = lists(models, "gpt-5.6-terra"@);
            let codex = lists(models, "gpt-5.3-codex"@);
            let five = lists(models, "gpt-5.5"@);
            let four = lists(models, "gpt-5.4"@);
            &&& sol ==> text::same_letters(chosen, "gpt-5.6-sol"@)
            &&& plain && !sol ==> text::same_letters(chosen, "gpt-5.6"@)
            &&& terra && !plain && !sol ==> text::same_letters(chosen, "gpt-5.6-terra"@)
            &&& codex && !terra && !plain && !sol ==> text::same_letters(chosen, "gpt-5.3-codex"@)
            &&& five && !codex && !terra && !plain && !sol ==> text::same_letters(chosen, "gpt-5.5"@)
            &&& four && !five && !codex && !terra && !plain && !sol ==> text::same_letters(chosen, "gpt-5.4"@)
            &&& models.len() > 0 ==> models.contains(chosen)
        }),
{
    let names = preferred_models();
    lemma_lists(models, "gpt-5.6-sol"@);
    lemma_lists(models, "gpt-5.6"@);
    lemma_lists(models, "gpt-5.6-terra"@);
    lemma_lists(models, "gpt-5.3-codex"@);
    lemma_lists(models, "gpt-5.5"@);
    lemma_lists(models, "gpt-5.4"@);
    reveal_with_fuel(first_named, 7);
    assert(names.drop_first()[0] == "gpt-5.6"@);
    assert(names.drop_first().drop_first()[0] == "gpt-5.6-terra"@);
    assert(names.drop_first().drop_first().drop_first()[0] == "gpt-5.3-codex"@);
    assert(names.drop_first().drop_first().drop_first().drop_first()[0] == "gpt-5.5"@);
    assert(names.drop_first().drop_first().drop_first().drop_first().drop_first()[0] == "gpt-5.4"@);
    if models.len() > 0 {
        law_chosen_model_is_listed(models);
    }
}

proof fn lemma_lists(models: Seq<Seq<char>>, name: Seq<char>)
    ensures
        lists(models, name) <==> named(models, name) is Some,
        named(models, name) matches Some(model) ==> text::same_letters(model, name),
    decreases models.len(),
{
    if models.len() > 0 {
        let rest = models.drop_first();
        lemma_lists(rest, name);
        if lists(rest, name) {
            let i = choose|i: int| 0 <= i < rest.len() && text::same_letters(#[trigger] rest[i], name);
            assert(text::same_letters(models[i + 1], name));
        }
        if lists(models, name) && !text::same_letters(models[0], name) {
            let i = choose|i: int| 0 <= i < models.len() && text::same_letters(#[trigger] models[i], name);
            assert(text::same_letters(rest[i - 1], name));
        }
    }
}

/// Where an upstream lists none of the preferred models, the first one is taken that has to do with code:
/// whose name holds `codex` and not `review`, in letters of any case. Where there is none of those either it
/// is the first of all, and where nothing is listed, none is known yet.
pub proof fn law_other_models_for_codex(models: Seq<Seq<char>>, k: int)
    requires
        !lists(models, "gpt-5.6-sol"@) && !lists(models, "gpt-5.6"@) && !lists(models, "gpt-5.6-terra"@),
        !lists(models, "gpt-5.3-codex"@) && !lists(models, "gpt-5.5"@) && !lists(models, "gpt-5.4"@),
    ensures
        ({
            let codes = |model: Seq<char>|
                text::occurs_in("codex"@, text::lowered(model)) && !text::occurs_in("review"@, text::lowered(model));
            &&& 0 <= k < models.len() && codes(models[k]) && (forall|i: int| 0 <= i < k ==> !codes(#[trigger] models[i]))
                ==> chosen_model(models) == models[k]
            &&& models.len() > 0 && (forall|i: int| 0 <= i < models.len() ==> !codes(#[trigger] models[i]))
                ==> chosen_model(models) == models[0]
            &&& models.len() == 0 ==> chosen_model(models) == "自动获取中"@
        }),
{
    let names = preferred_models();
    lemma_lists(models, "gpt-5.6-sol"@);
    lemma_lists(models, "gpt-5.6"@);
    lemma_lists(models, "gpt-5.6-terra"@);
    lemma_lists(models, "gpt-5.3-codex"@);
    lemma_lists(models, "gpt-5.5"@);
    lemma_lists(models, "gpt-5.4"@);
    reveal_with_fuel(first_named, 7);
    assert(names.drop_first()[0] == "gpt-5.6"@);
    assert(names.drop_first().drop_first()[0] == "gpt-5.6-terra"@);
    assert(names.drop_first().drop_first().drop_first()[0] == "gpt-5.3-codex"@);
    assert(names.drop_first().drop_first().drop_first().drop_first()[0] == "gpt-5.5"@);
    assert(names.drop_first().drop_first().drop_first().drop_first().drop_first()[0] == "gpt-5.4"@);
    assert(first_named(models, names) is None);
    lemma_coding_model_at(models, k);
}

proof fn lemma_coding_model_at(models: Seq<Seq<char>>, k: int)
    ensures
        0 <= k < models.len() && is_coding_model(models[k]) && (forall|i: int|
            0 <= i < k ==> !is_coding_model(#[trigger] models[i])) ==> first_coding_model(models) == Some(models[k]),
        (forall|i: int| 0 <= i < models.len() ==> !is_coding_model(#[trigger] models[i])) ==> first_coding_model(models)
            is None,
    decreases models.len(),
{
    if models.len() > 0 {
        let rest = models.drop_first();
        lemma_coding_model_at(rest, k - 1);
        if 0 < k < models.len() && (forall|i: int| 0 <= i < k ==> !is_coding_model(#[trigger] models[i])) {
            assert forall|i: int| 0 <= i < k - 1 implies !is_coding_model(#[trigger] rest[i]) by {
                assert(!is_coding_model(models[i + 1]));
            }
            assert(!is_coding_model(models[0]));
            assert(rest[k - 1] == models[k]);
        }
        if forall|i: int| 0 <= i < models.len() ==> !is_coding_model(#[trigger] models[i]) {
            assert forall|i: int| 0 <= i < rest.len() implies !is_coding_model(#[trigger] rest[i]) by {
                assert(!is_coding_model(models[i + 1]));
            }
            assert(!is_coding_model(models[0]));
        }
    }
}

/// An item that names a model: the name, or an object with the name as its `id`.
pub open spec fn names_model(item: JsonView, name: Seq<char>) -> bool {
    item == JsonView::Str(name) || (item matches JsonView::Object(members) && members.contains_key("id"@)
        && members["id"@] == JsonView::Str(name))
}

/// The items of a list of models.
pub open spec fn listed_items(payload: JsonView) -> Seq<JsonView> {
    match payload {
        JsonView::Array(items) => items,
        JsonView::Object(members) => match members["data"@] {
            JsonView::Array(items) => if members.contains_key("data"@) {
                items
            } else {
                Seq::empty()
            },
            _ => Seq::empty(),
        },
        _ => Seq::empty(),
    }
}

/// A list of models names a model where one of its items does. The items stand in an array under `data`, or
/// are the payload itself; anything else lists nothing.
pub proof fn law_models_are_named_by_items(payload: JsonView, name: Seq<char>)
    ensures
        ({
            let items = listed_items(payload);
            model_ids(payload).contains(name) <==> exists|i: int| 0 <= i < items.len() && names_model(#[trigger] items[i], name)
        }),
{
    let items = entries_in(payload);
    assert(items =~= listed_items(payload));
    law_model_lists_are_sorted_sets(payload);
    lemma_names_in(items, name);
    assert(names_in(items).contains(name) <==> model_ids(payload).contains(name));
    if exists|i: int| 0 <= i < items.len() && names_model(#[trigger] items[i], name) {
        let i = choose|i: int| 0 <= i < items.len() && names_model(#[trigger] items[i], name);
        assert(entry_name(items[i]) == Some(name));
    }
    if exists|i: int| 0 <= i < items.len() && entry_name(#[trigger] items[i]) == Some(name) {
        let i = choose|i: int| 0 <= i < items.len() && entry_name(#[trigger] items[i]) == Some(name);
        assert(names_model(items[i], name));
    }
}

proof fn lemma_names_in(entries: Seq<JsonView>, name: Seq<char>)
    ensures
        names_in(entries).contains(name) <==> exists|i: int|
            0 <= i < entries.len() && entry_name(#[trigger] entries[i]) == Some(name),
    decreases entries.len(),
{
    if entries.len() > 0 {
        let front = entries.drop_last();
        let before = names_in(front);
        let all = names_in(entries);
        lemma_names_in(front, name);
        if all.contains(name) {
            let k = choose|k: int| 0 <= k < all.len() && all[k] == name;
            if k < before.len() {
                assert(before[k] == name);
                let i = choose|i: int| 0 <= i < front.len() && entry_name(#[trigger] front[i]) == Some(name);
                assert(entry_name(entries[i]) == Some(name));
            } else {
                assert(entry_name(entries[entries.len() - 1]) == Some(name));
            }
        }
        if exists|i: int| 0 <= i < entries.len() && entry_name(#[trigger] entries[i]) == Some(name) {
            let i = choose|i: int| 0 <= i < entries.len() && entry_name(#[trigger] entries[i]) == Some(name);
            if i < front.len() {
                assert(entry_name(front[i]) == Some(name));
                let k = choose|k: int| 0 <= k < before.len() && before[k] == name;
                assert(all[k] == name);
            } else {
                assert(all[before.len() as int] == name);
            }
        }
    }
}

/// What is found out about an upstream: it is listed where it answers with a success and a list that names
/// a model, and then with the one for Codex; it cannot be reached where it does not answer; and it is at
/// fault otherwise.
pub proof fn law_findings(reply: ModelsReply)
    ensures
        ({
            let finding = finding_of(reply);
            &&& finding is Unreachable <==> reply is Unreachable
            &&& finding is Listed <==> (reply matches ModelsReply::Body(bytes) && (crate::json::json_parsed(
                bytes@,
            ) matches Some(payload) && model_ids(payload).len() > 0))
            &&& finding matches FindingView::Listed(model, models) ==> {
                &&& models == model_ids(crate::json::json_parsed(reply->Body_0@)->0)
                &&& model == chosen_model(models)
            }
            &&& reply matches ModelsReply::Unreachable(error) ==> finding == FindingView::Unreachable(error@)
            &&& reply matches ModelsReply::Refused(status) ==> finding == FindingView::Faulty(
                "HTTP "@ + gateway::status_text(status),
            )
        }),
{
}

/// A probe is passed exactly where the answer says success and its body is a JSON object with a string under
/// `id`, with the word `response` under `object`, or with an array under `output`.
pub proof fn law_passed_probes(model: Seq<char>, reply: ProbeReply)
    ensures
        probe_problem(model, reply) is None <==> (reply matches ProbeReply::Answer(status, body) && status / 100 == 2 && (
        crate::json::text_parsed(body@) matches Some(JsonView::Object(members)) && {
            ||| members.contains_key("id"@) && members["id"@] is Str
            ||| members.contains_key("object"@) && members["object"@] == JsonView::Str("response"@)
            ||| members.contains_key("output"@) && members["output"@] is Array
        })),
{
}

/// A probe asks the model for next to nothing: sixteen tokens, not streamed and not stored.
pub proof fn law_probes_ask_for_little(model: Seq<char>)
    ensures
        ({
            let payload = probe_payload(model);
            &&& crate::json::text_member(payload, "model"@) == Some(model)
            &&& crate::json::text_member(payload, "input"@) == Some("Reply with OK."@)
            &&& crate::json::member_of(payload, "max_output_tokens"@) == Some(JsonView::Whole(16))
            &&& crate::json::member_of(payload, "stream"@) == Some(JsonView::Bool(false))
            &&& crate::json::member_of(payload, "store"@) == Some(JsonView::Bool(false))
        }),
{
    reveal_strlit("model");
    reveal_strlit("input");
    reveal_strlit("max_output_tokens");
    reveal_strlit("stream");
    reveal_strlit("store");
    assert("model"@[0] != "input"@[0] && "model"@[0] != "stream"@[0] && "model"@[0] != "store"@[0]);
    assert("input"@[0] != "stream"@[0] && "input"@[0] != "store"@[0]);
    assert("stream"@.len() != "store"@.len());
    assert("max_output_tokens"@.len() == 17);
}

/// What an upstream says of itself is told in no more than its first hundred and eighty characters.
pub proof fn law_summaries_are_short(body: Seq<char>)
    ensures
        summary(body).is_prefix_of(body),
        summary(body).len() == if body.len() < 180 {
            body.len()
        } else {
            180
        },
{
    assert(summary(body) =~= body.subrange(0, summary(body).len() as int));
}

/// Of the spellings of a preferred model that an upstream lists, the first is chosen.
pub proof fn law_first_spelling_is_chosen(models: Seq<Seq<char>>, name: Seq<char>, k: int)
    requires
        seq!["gpt-5.6-sol"@, "gpt-5.6"@, "gpt-5.6-terra"@, "gpt-5.3-codex"@, "gpt-5.5"@, "gpt-5.4"@].contains(name),
        text::same_letters(chosen_model(models), name),
        0 <= k < models.len(),
        text::same_letters(models[k], name),
        forall|i: int| 0 <= i < k ==> !text::same_letters(#[trigger] models[i], name),
    ensures
        chosen_model(models) == models[k],
{
    let names = preferred_models();
    assert(names.contains(name));
    lemma_lists(models, name);
    lemma_first_named_is_named(models, names, name);
    let other = choose|other: Seq<char>|
        #![trigger named(models, other)]
        named(models, other) == first_named(models, names) && named(models, other) is Some;
    lemma_lists(models, other);
    lemma_named_at(models, other, k);
}

proof fn lemma_first_named_is_named(models: Seq<Seq<char>>, names: Seq<Seq<char>>, name: Seq<char>)
    requires
        names.contains(name),
        named(models, name) is Some,
    ensures
        exists|other: Seq<char>|
            #![trigger named(models, other)]
            named(models, other) == first_named(models, names) && named(models, other) is Some,
    decreases names.len(),
{
    if named(models, names[0]) is None {
        let rest = names.drop_first();
        let at = choose|at: int| 0 <= at < names.len() && names[at] == name;
        assert(rest[at - 1] == name);
        lemma_first_named_is_named(models, rest, name);
    }
}

proof fn lemma_named_at(models: Seq<Seq<char>>, name: Seq<char>, k: int)
    requires
        0 <= k < models.len(),
        text::same_letters(models[k], name),
        forall|i: int| 0 <= i < k ==> !text::same_letters(#[trigger] models[i], name),
    ensures
        named(models, name) == Some(models[k]),
    decreases models.len(),
{
    if k > 0 {
        let rest = models.drop_first();
        assert(!text::same_letters(models[0], name));
        assert(rest[k - 1] == models[k]);
        assert forall|i: int| 0 <= i < k - 1 implies !text::same_letters(#[trigger] rest[i], name) by {
            assert(rest[i] == models[i + 1]);
        }
        lemma_named_at(rest, name, k - 1);
    }
}

/// What is wrong with an upstream that lists no models, and with one whose model does not answer, is said in
/// words.
pub proof fn law_problems_are_said_in_words(reply: ModelsReply, model: Seq<char>, probe: ProbeReply)
    ensures
        reply matches ModelsReply::Unreadable(error) ==> finding_of(reply) == FindingView::Faulty(
            "模型列表不是有效 JSON: "@ + error@,
        ),
        reply matches ModelsReply::Body(bytes) ==> match crate::json::json_parsed(bytes@) {
            None => finding_of(reply) == FindingView::Faulty("模型列表不是有效 JSON: error decoding response body"@),
            Some(payload) => model_ids(payload).len() == 0 ==> finding_of(reply) == FindingView::Faulty(
                "/models 没有返回可用模型"@,
            ),
        },
        probe matches ProbeReply::Unsent(error) ==> probe_problem(model, probe) == Some("模型请求失败: "@ + error@),
        probe matches ProbeReply::Unreadable(error) ==> probe_problem(model, probe) == Some("无法读取模型响应: "@ + error@),
        probe matches ProbeReply::Answer(status, body) ==> {
            let parsed = crate::json::text_parsed(body@);
            let problem = probe_problem(model, probe);
            &&& status / 100 != 2 ==> problem == Some(
                "模型 "@ + model + " /responses 返回 HTTP "@ + gateway::status_text(status) + ": "@ + summary(body@),
            )
            &&& status / 100 == 2 && parsed is None ==> problem == Some(
                "模型 "@ + model + " 返回的不是有效 JSON: "@ + crate::json::json_error(vstd::utf8::encode_utf8(body@)),
            )
            &&& status / 100 == 2 && parsed is Some && problem is Some ==> problem == Some(
                "模型 "@ + model + " 未返回有效 Responses 结果"@,
            )
        },
{
}

/// A response says success with a status of two hundred and something, and with no other.
pub proof fn law_successes_by_status(status: u16)
    ensures
        is_success(status) <==> status / 100 == 2,
{
}

} // verus!

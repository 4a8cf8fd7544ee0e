//! The gateway: how a request travels to an upstream, and what is answered and remembered.

use crate::clock::Moment;
use crate::json::{Json, JsonView};
use crate::models::{AppConfig, AppSettings, Provider, ProviderStatus, ProviderView, RequestLog};
use crate::providers;
use crate::text;
use std::collections::VecDeque;
use vstd::prelude::*;

verus! {

// -------------------------------------------------------------------------------- addresses
/// Where a request goes: the path behind the base address, with one `/` between them and `/v1` only
/// once.
pub open spec fn joined_url(base_url: Seq<char>, request_path: Seq<char>) -> Seq<char> {
    let base = text::strip_end(base_url, text::only('/'));
    let path = if "/v1"@.is_suffix_of(base) && "/v1/"@.is_prefix_of(request_path) {
        request_path.skip(3)
    } else {
        request_path
    };
    base + "/"@ + text::strip_start(path, text::only('/'))
}

/// Where a request goes: the path behind the base address, with one `/` between them and `/v1` only
/// once.
pub fn join_url(base_url: &str, request_path: &str) -> (url: String)
    ensures
        url@ == joined_url(base_url@, request_path@),
{
    let base = text::trim_end_char(base_url, '/');
    let path = if text::ends_with(base, "/v1") && text::starts_with(request_path, "/v1/") {
        proof {
            reveal_strlit("/v1");
            reveal_strlit("/v1/");
            let p = request_path@;
            assert("/v1/"@ =~= p.subrange(0, 4));
            assert forall|i: int| 0 <= i < 3 implies "/v1"@[i] == p[i] by {
                assert(p.subrange(0, 4)[i] == "/v1/"@[i]);
            }
            assert("/v1"@ =~= p.subrange(0, 3));
        }
        match text::strip_prefix(request_path, "/v1") {
            Some(rest) => rest,
            None => request_path,
        }
    } else {
        request_path
    };
    text::cat3(base, "/", text::trim_start_char(path, '/'))
}

// ------------------------------------------------------------------------------- the model
/// The model that a request body asks for.
pub open spec fn model_in(body: JsonView) -> Option<Seq<char>> {
    crate::json::text_member(body, "model"@)
}

/// The model that the bytes of a request body ask for.
pub open spec fn requested_in(body: Seq<u8>) -> Option<Seq<char>> {
    match crate::json::json_parsed(body) {
        Some(payload) => model_in(payload),
        None => None,
    }
}

/// The model that a request body asks for.
pub fn model_of(payload: &Json) -> (model: Option<String>)
    ensures
        model.deep_view() == model_in(payload@),
{
    payload.get_text("model")
}

/// The model that the bytes of a request body ask for.
pub fn requested_model(body: &Vec<u8>) -> (model: Option<String>)
    ensures
        model.deep_view() == requested_in(body@),
{
    match Json::parse(body.as_slice()) {
        Ok(payload) => model_of(&payload),
        Err(_) => None,
    }
}

/// The request body with another model, where it names one.
pub open spec fn with_model_in(payload: JsonView, model: Seq<char>) -> Option<JsonView> {
    match payload {
        JsonView::Object(members) => if members.contains_key("model"@) {
            Some(JsonView::Object(members.insert("model"@, JsonView::Str(model))))
        } else {
            None
        },
        _ => None,
    }
}

/// The request body with another model, where it names one.
pub fn with_model(payload: Json, model: &str) -> (r: Option<Json>)
    ensures
        r is Some <==> with_model_in(payload@, model@) is Some,
        r matches Some(json) ==> with_model_in(payload@, model@) == Some(json@),
{
    payload.with_member("model", Json::Str(model.to_owned()))
}

/// The bytes of a request body with another model, where it names one.
pub open spec fn rewritten_body(body: Seq<u8>, model: Seq<char>) -> Option<Seq<u8>> {
    match crate::json::json_parsed(body) {
        Some(payload) => match with_model_in(payload, model) {
            Some(rewritten) => Some(crate::json::json_written(rewritten)),
            None => None,
        },
        None => None,
    }
}

/// The bytes of a request body with another model, where it names one. Whoever reads what is sent is
/// asked for that model, and finds the rest as it came in.
pub fn rewrite_model(body: &Vec<u8>, model: &str) -> (r: Option<Vec<u8>>)
    ensures
        r is Some <==> rewritten_body(body@, model@) is Some,
        r matches Some(bytes) ==> rewritten_body(body@, model@) == Some(bytes@),
        r matches Some(bytes) ==> crate::json::json_parsed(bytes@) == with_model_in(
            crate::json::json_parsed(body@)->0,
            model@,
        ),
{
    match Json::parse(body.as_slice()) {
        Ok(payload) => {
            let ghost before = payload@;
            match with_model(payload, model) {
                Some(rewritten) => {
                    proof {
                        let depth = crate::json::MAX_NESTING as nat;
                        let members = before->Object_0;
                        let changed = members.insert("model"@, JsonView::Str(model@));
                        assert forall|key: Seq<char>| changed.contains_key(key) implies crate::json::is_shallow(
                            #[trigger] changed[key],
                            (depth - 1) as nat,
                        ) by {
                            if key != "model"@ {
                                assert(members.contains_key(key));
                                assert(crate::json::is_shallow(members[key], (depth - 1) as nat));
                            }
                        }
                    }
                    Some(rewritten.to_bytes())
                },
                None => None,
            }
        },
        Err(_) => None,
    }
}

/// Two request bodies that are the same, but for the model that they ask for.
pub open spec fn differs_in_model_alone(a: JsonView, b: JsonView) -> bool {
    a == b || (a matches JsonView::Object(members) && (b matches JsonView::Object(others) && members.remove("model"@)
        == others.remove("model"@) && members.contains_key("model"@) && others.contains_key("model"@)))
}

/// Whether a request for this model goes to this upstream with another model: the upstream has
/// listed its models, the one asked for is not among them, and there is another one to ask for.
pub open spec fn needs_alignment(p: ProviderView, requested: Seq<char>, settings: AppSettings) -> bool {
    &&& settings.remap_model
    &&& p.available_models.len() > 0
    &&& !p.knows_model(requested)
    &&& p.effective_model().len() > 0
    &&& !text::same_letters(p.effective_model(), requested)
}

/// What is sent to an upstream and the model that it asks for.
pub open spec fn aligned_body(
    body: Seq<u8>,
    p: ProviderView,
    requested: Option<Seq<char>>,
    settings: AppSettings,
) -> (Seq<u8>, Option<Seq<char>>) {
    match requested {
        Some(model) => if needs_alignment(p, model, settings) {
            match rewritten_body(body, p.effective_model()) {
                Some(rewritten) => (rewritten, Some(p.effective_model())),
                None => (body, requested),
            }
        } else {
            (body, requested)
        },
        None => (body, requested),
    }
}

fn copied_bytes(bytes: &Vec<u8>) -> (copy: Vec<u8>)
    ensures
        copy@ == bytes@,
{
    let copy = bytes.clone();
    assert(copy@ =~= bytes@);
    copy
}

/// Keeps the upstream model consistent with what that upstream actually serves. With the model that
/// the body asks for given as requested, whoever reads what is sent is asked for the model that is
/// reported, and a body that can be read is changed in nothing but its model.
pub fn align_model(body: &Vec<u8>, provider: &Provider, requested: Option<&str>, settings: &AppSettings) -> (r: (
    Vec<u8>,
    Option<String>,
))
    ensures
        (r.0@, r.1.deep_view()) == aligned_body(body@, provider@, requested.deep_view(), *settings),
        requested.deep_view() == requested_in(body@) ==> requested_in(r.0@) == r.1.deep_view(),
        crate::json::json_parsed(body@) matches Some(payload) ==> (crate::json::json_parsed(r.0@) matches Some(sent)
            && differs_in_model_alone(payload, sent)),
{
    match requested {
        Some(model) => {
            if !settings.remap_model || provider.available_models.len() == 0 || provider.knows_model(model) {
                return (copied_bytes(body), Some(model.to_owned()));
            }
            let target = provider.effective_model();
            if target.is_empty() || text::eq_ignore_ascii_case(target, model) {
                return (copied_bytes(body), Some(model.to_owned()));
            }
            match rewrite_model(body, target) {
                Some(rewritten) => {
                    proof {
                        let members = crate::json::json_parsed(body@)->0->Object_0;
                        assert(members.insert("model"@, JsonView::Str(target@)).remove("model"@) =~= members.remove(
                            "model"@,
                        ));
                    }
                    (rewritten, Some(target.to_owned()))
                },
                None => (copied_bytes(body), Some(model.to_owned())),
            }
        },
        None => (copied_bytes(body), None),
    }
}

// --------------------------------------------------------------------------------- headers
/// A header that concerns one connection only, in letters of any case.
pub open spec fn concerns_one_hop(name: Seq<char>) -> bool {
    let lower = text::lowered(name);
    ||| lower == "host"@
    ||| lower == "connection"@
    ||| lower == "content-length"@
    ||| lower == "transfer-encoding"@
    ||| lower == "upgrade"@
    ||| lower == "proxy-authorization"@
    ||| lower == "proxy-authenticate"@
    ||| lower == "te"@
    ||| lower == "trailer"@
    ||| lower == "keep-alive"@
}

/// Whether a header concerns one connection only. Responses are passed on without such headers.
pub fn is_hop_header(name: &str) -> (r: bool)
    ensures
        r == concerns_one_hop(name@),
{
    let lower = text::ascii_lowercase(name);
    let lower = lower.as_str();
    text::same(lower, "host") || text::same(lower, "connection") || text::same(lower, "content-length") || text::same(
        lower,
        "transfer-encoding",
    ) || text::same(lower, "upgrade") || text::same(lower, "proxy-authorization") || text::same(
        lower,
        "proxy-authenticate",
    ) || text::same(lower, "te") || text::same(lower, "trailer") || text::same(lower, "keep-alive")
}

/// A header of a request that reaches the upstream: not one of a single connection, and not one
/// that holds a key.
pub open spec fn passes_on(name: Seq<char>) -> bool {
    &&& !concerns_one_hop(name)
    &&& text::lowered(name) != "authorization"@
    &&& text::lowered(name) != "x-api-key"@
}

/// Whether a header of a request reaches the upstream.
pub fn forwards_header(name: &str) -> (r: bool)
    ensures
        r == passes_on(name@),
{
    let lower = text::ascii_lowercase(name);
    !is_hop_header(name) && !text::same(lower.as_str(), "authorization") && !text::same(lower.as_str(), "x-api-key")
}

/// The name and the value of a header.
pub open spec fn header_of(header: (String, Vec<u8>)) -> (Seq<char>, Seq<u8>) {
    (header.0@, header.1@)
}

/// The names and the values of headers.
pub open spec fn headers_of(headers: Seq<(String, Vec<u8>)>) -> Seq<(Seq<char>, Seq<u8>)> {
    headers.map_values(|header: (String, Vec<u8>)| header_of(header))
}

/// The header that shows a key.
pub open spec fn bearer_header(key: Seq<char>) -> (Seq<char>, Seq<u8>) {
    ("authorization"@, vstd::utf8::encode_utf8("Bearer "@ + key))
}

/// The headers of a request as an upstream gets them: those that pass, in their order, and the key of the
/// upstream where it has one.
pub open spec fn sent_headers(headers: Seq<(Seq<char>, Seq<u8>)>, key: Option<Seq<char>>) -> Seq<(Seq<char>, Seq<u8>)> {
    let passed = headers.filter(|header: (Seq<char>, Seq<u8>)| passes_on(header.0));
    match key {
        Some(key) => passed.push(bearer_header(key)),
        None => passed,
    }
}

/// The headers of a request as an upstream gets them.
pub fn upstream_headers(headers: &Vec<(String, Vec<u8>)>, provider: &Provider) -> (sent: Vec<(String, Vec<u8>)>)
    ensures
        headers_of(sent@) == sent_headers(headers_of(headers@), provider@.api_key),
{
    let ghost all = headers_of(headers@);
    let ghost keep = |header: (Seq<char>, Seq<u8>)| passes_on(header.0);
    let mut sent: Vec<(String, Vec<u8>)> = Vec::new();
    let mut i: usize = 0;
    proof {
        reveal(Seq::filter);
        assert(all.take(0) =~= Seq::<(Seq<char>, Seq<u8>)>::empty());
        assert(headers_of(sent@) =~= all.take(0).filter(keep));
    }
    while i < headers.len()
        invariant
            all == headers_of(headers@),
            keep == (|header: (Seq<char>, Seq<u8>)| passes_on(header.0)),
            i <= headers@.len(),
            headers_of(sent@) == all.take(i as int).filter(keep),
        decreases headers@.len() - i,
    {
        let ghost before = sent@;
        proof {
            assert(all[i as int] == header_of(headers@[i as int]));
            assert(all.take(i + 1) =~= all.take(i as int).push(all[i as int]));
            crate::order::lemma_filter_push(all.take(i as int), keep, all[i as int]);
        }
        if forwards_header(headers[i].0.as_str()) {
            sent.push((headers[i].0.clone(), copied_bytes(&headers[i].1)));
            assert(headers_of(sent@) =~= headers_of(before).push(all[i as int]));
        }
        i = i + 1;
    }
    assert(all.take(i as int) =~= all);
    match &provider.api_key {
        Some(key) => {
            let ghost before = sent@;
            let value = text::cat("Bearer ", key.as_str());
            sent.push(("authorization".to_owned(), value.as_str().as_bytes_vec()));
            assert(headers_of(sent@) =~= headers_of(before).push(bearer_header(key@)));
        },
        None => {},
    }
    sent
}

/// Whether a request shows the key for local access: nothing is asked where no key is set.
pub open spec fn is_authorized(expected: Seq<char>, authorization: Option<Seq<char>>) -> bool {
    expected.len() == 0 || authorization == Some("Bearer "@ + expected)
}

/// Whether a request shows the key for local access in its `Authorization` header.
pub fn authorized(expected: &str, authorization: Option<&str>) -> (r: bool)
    ensures
        r == is_authorized(expected@, authorization.deep_view()),
{
    if expected.is_empty() {
        return true;
    }
    match authorization {
        Some(value) => {
            let wanted = text::cat("Bearer ", expected);
            text::same(value, wanted.as_str())
        },
        None => false,
    }
}

// ------------------------------------------------------------------------- answers of its own
/// An answer that the gateway gives itself: a status and a JSON body.
#[derive(Debug)]
pub struct Reply {
    pub status: u16,
    pub body: Vec<u8>,
}

/// The JSON of an answer that the gateway gives itself.
pub open spec fn error_payload(message: Seq<char>) -> JsonView {
    JsonView::Object(
        Map::empty().insert(
            "error"@,
            JsonView::Object(
                Map::empty().insert("message"@, JsonView::Str(message)).insert(
                    "type"@,
                    JsonView::Str("relaydeck_gateway_error"@),
                ),
            ),
        ),
    )
}

impl Reply {
    /// The answer has this status and says this.
    pub open spec fn is_error(self, status: u16, message: Seq<char>) -> bool {
        &&& self.status == status
        &&& self.body@ == crate::json::json_written(error_payload(message))
        &&& crate::json::json_parsed(self.body@) == Some(error_payload(message))
    }
}

/// An answer with this status and these words; its body is JSON that says them.
pub fn error_response(status: u16, message: &str) -> (reply: Reply)
    ensures
        reply.is_error(status, message@),
{
    let error = Json::object().and("message", Json::Str(message.to_owned())).and(
        "type",
        Json::Str("relaydeck_gateway_error".to_owned()),
    );
    let payload = Json::object().and("error", error);
    proof {
        reveal_with_fuel(crate::json::is_shallow, 3);
        assert(crate::json::is_shallow(payload@, crate::json::MAX_NESTING as nat));
    }
    Reply { status, body: payload.to_bytes() }
}

// -------------------------------------------------------------------------------- failures
/// How `http::StatusCode` writes a status: its number and its reason.
pub uninterp spec fn status_text(code: u16) -> Seq<char>;

/// Writes a status with the `Display` of `http::StatusCode`, which axum re-exports. Claimed: the
/// text depends on the number alone, and begins with it and a blank. There is no status outside
/// 100 to 999.
#[verifier::external_body]
pub(crate) fn write_status(code: u16) -> (text: String)
    requires
        100 <= code <= 999,
    ensures
        text@ == status_text(code),
        (text::decimal(code as nat) + " "@).is_prefix_of(text@),
{
    axum::http::StatusCode::from_u16(code).expect("a status has three digits").to_string()
}

/// Why an attempt against one upstream did not produce a usable response.
#[derive(Debug)]
pub enum Failure {
    Transport(String),
    Status(u16),
}

impl Failure {
    /// A status has three digits.
    pub open spec fn is_valid(self) -> bool {
        self matches Failure::Status(code) ==> 100 <= code <= 999
    }

    /// What is remembered of the failure of a provider of this name.
    pub open spec fn text(self, provider: Seq<char>) -> Seq<char> {
        match self {
            Failure::Transport(error) => provider + ": "@ + error@,
            Failure::Status(code) => provider + " 返回 HTTP "@ + status_text(code),
        }
    }

    /// What is remembered of the failure of a provider of this name.
    pub fn message(&self, provider: &str) -> (message: String)
        requires
            self.is_valid(),
        ensures
            message@ == self.text(provider@),
    {
        match self {
            Failure::Transport(error) => text::cat3(provider, ": ", error.as_str()),
            Failure::Status(code) => {
                let status = write_status(*code);
                text::cat3(provider, " 返回 HTTP ", status.as_str())
            },
        }
    }

    /// The upstream is broken; a rate limit only says "later".
    pub open spec fn is_fault(self) -> bool {
        self != Failure::Status(429)
    }

    /// Rate limiting says "later", everything else says "this upstream is broken".
    pub fn marks_unhealthy(&self) -> (r: bool)
        ensures
            r == self.is_fault(),
    {
        match self {
            Failure::Transport(_) => true,
            Failure::Status(code) => *code != 429,
        }
    }
}

/// A status that says the upstream cannot serve the request now, so that another one is tried.
pub open spec fn fails_over(status: u16, settings: AppSettings) -> bool {
    ||| 500 <= status <= 599
    ||| status == 429 || status == 408 || status == 409 || status == 425
    ||| settings.failover_on_client_errors && (status == 401 || status == 402 || status == 403 || status == 404)
}

/// Whether another upstream is tried after this status.
pub fn should_failover(status: u16, settings: &AppSettings) -> (r: bool)
    ensures
        r == fails_over(status, *settings),
{
    if 500 <= status && status <= 599 {
        return true;
    }
    if status == 429 || status == 408 || status == 409 || status == 425 {
        return true;
    }
    settings.failover_on_client_errors && (status == 401 || status == 402 || status == 403 || status == 404)
}

/// A status that says the request was served.
pub open spec fn is_success(status: u16) -> bool {
    200 <= status <= 299
}

/// A provider after it served a request.
pub open spec fn after_success(p: ProviderView) -> ProviderView {
    ProviderView {
        served_count: (p.served_count + 1) as u64,
        last_error: None,
        status: if p.status == ProviderStatus::Checking {
            p.status
        } else {
            ProviderStatus::Healthy
        },
        ..p.without_cooldown()
    }
}

/// A provider with one more failure on its record.
pub open spec fn blamed(p: ProviderView, failure: Failure) -> ProviderView {
    ProviderView {
        failed_count: (p.failed_count + 1) as u64,
        consecutive_failures: if p.consecutive_failures == u32::MAX {
            u32::MAX
        } else {
            (p.consecutive_failures + 1) as u32
        },
        last_error: Some(failure.text(p.name)),
        ..p
    }
}

/// A provider after an attempt against it failed.
pub open spec fn after_failure(p: ProviderView, failure: Failure, base: nat, now: Moment) -> ProviderView {
    ProviderView {
        status: if failure.is_fault() && p.status != ProviderStatus::Checking {
            ProviderStatus::Unhealthy
        } else {
            p.status
        },
        ..blamed(p, failure).with_cooldown(base, now)
    }
}

/// The count of served requests has room for one more.
pub open spec fn success_fits(list: Seq<ProviderView>, id: Seq<char>) -> bool {
    providers::find_id(list, id) matches Some(at) ==> list[at].served_count < u64::MAX
}

/// The count of failures has room for one more, and the pause ends within the calendar.
pub open spec fn failure_fits(list: Seq<ProviderView>, id: Seq<char>, failure: Failure, base: nat, now: Moment) -> bool {
    providers::find_id(list, id) matches Some(at) ==> list[at].failed_count < u64::MAX && blamed(
        list[at],
        failure,
    ).can_cool(base, now)
}

/// Remembers that the provider served a request.
pub fn record_success(config: &mut AppConfig, id: &str)
    requires
        success_fits(old(config)@.providers, id@),
    ensures
        final(config)@.providers == providers::changed(old(config)@.providers, id@, |p: ProviderView| after_success(p)),
        final(config).settings == old(config).settings,
{
    match providers::position(&config.providers, id) {
        Some(at) => {
            config.providers[at].clear_cooldown();
            let served: u64 = config.providers[at].served_count + 1;
            config.providers[at].served_count = served;
            config.providers[at].last_error = None;
            if config.providers[at].status != ProviderStatus::Checking {
                config.providers[at].status = ProviderStatus::Healthy;
            }
            assert(config@.providers =~= old(config)@.providers.update(
                at as int,
                after_success(old(config)@.providers[at as int]),
            ));
        },
        None => {},
    }
}

/// Remembers that an attempt against the provider failed.
pub fn record_failure(config: &mut AppConfig, id: &str, failure: &Failure, settings: &AppSettings, now: Moment)
    requires
        failure.is_valid(),
        failure_fits(old(config)@.providers, id@, *failure, settings.cooldown_seconds as nat, now),
    ensures
        final(config)@.providers == providers::changed(
            old(config)@.providers,
            id@,
            |p: ProviderView| after_failure(p, *failure, settings.cooldown_seconds as nat, now),
        ),
        final(config).settings == old(config).settings,
{
    match providers::position(&config.providers, id) {
        Some(at) => {
            let failed: u64 = config.providers[at].failed_count + 1;
            let in_a_row: u32 = config.providers[at].consecutive_failures.saturating_add(1);
            let message = failure.message(config.providers[at].name.as_str());
            config.providers[at].failed_count = failed;
            config.providers[at].consecutive_failures = in_a_row;
            config.providers[at].last_error = Some(message);
            assert(config@.providers[at as int] == blamed(old(config)@.providers[at as int], *failure));
            config.providers[at].apply_cooldown(settings.cooldown_seconds, now);
            if failure.marks_unhealthy() && config.providers[at].status != ProviderStatus::Checking {
                config.providers[at].status = ProviderStatus::Unhealthy;
            }
            assert(config@.providers =~= old(config)@.providers.update(
                at as int,
                after_failure(old(config)@.providers[at as int], *failure, settings.cooldown_seconds as nat, now),
            ));
        },
        None => {},
    }
}

// -------------------------------------------------------------------------------- the log
/// How many requests the log remembers.
pub const MAX_LOGS: usize = 300;

/// The log with one more entry: the newest first, and no more than fit.
pub open spec fn logged(logs: Seq<RequestLog>, log: RequestLog) -> Seq<RequestLog> {
    let all = seq![log] + logs;
    if all.len() > MAX_LOGS {
        all.take(MAX_LOGS as int)
    } else {
        all
    }
}

/// Puts an entry in front of the log and drops what no longer fits.
pub fn push_log(logs: &mut VecDeque<RequestLog>, log: RequestLog)
    ensures
        final(logs)@ == logged(old(logs)@, log),
{
    logs.push_front(log);
    logs.truncate(MAX_LOGS);
    assert(logs@ =~= logged(old(logs)@, log));
}

// ------------------------------------------------------------------------------------ laws
/// Every address stays under the base address of its provider, whatever path is asked for, and it
/// does not matter whether the base address was given with a slash at its end.
pub proof fn law_requests_stay_under_the_base_address(base_url: Seq<char>, request_path: Seq<char>)
    ensures
        (text::strip_end(base_url, text::only('/')) + "/"@).is_prefix_of(joined_url(base_url, request_path)),
        joined_url(base_url.push('/'), request_path) == joined_url(base_url, request_path),
{
    let base = text::strip_end(base_url, text::only('/'));
    let url = joined_url(base_url, request_path);
    assert(base + "/"@ =~= url.subrange(0, (base + "/"@).len() as int));
    assert(base_url.push('/').drop_last() =~= base_url);
    assert(text::only('/')('/'));
}

/// A path under `/v1` leads to the same address whether or not the base address ends in `/v1`.
pub proof fn law_version_prefix_appears_once(base: Seq<char>, rest: Seq<char>)
    requires
        text::strip_end(base, text::only('/')) == base,
        !"/v1"@.is_suffix_of(base),
        rest.len() > 0,
        rest[0] != '/',
    ensures
        joined_url(base + "/v1"@, "/v1/"@ + rest) == base + "/v1/"@ + rest,
        joined_url(base, "/v1/"@ + rest) == base + "/v1/"@ + rest,
{
    reveal_strlit("/v1");
    reveal_strlit("/v1/");
    reveal_strlit("/");
    let f = text::only('/');
    let path = "/v1/"@ + rest;
    let versioned = base + "/v1"@;
    assert(versioned.last() == '1');
    assert("/v1"@ =~= versioned.subrange(versioned.len() - 3, versioned.len() as int));
    assert("/v1/"@ =~= path.subrange(0, 4));
    let short = path.skip(3);
    assert(text::strip_start(short, f) == rest) by {
        reveal_with_fuel(text::strip_start, 3);
        assert(short[0] == '/');
        assert(short.drop_first() =~= rest);
    }
    assert(text::strip_start(path, f) == path.drop_first()) by {
        reveal_with_fuel(text::strip_start, 3);
        assert(path[0] == '/');
        assert(path.drop_first()[0] == 'v');
    }
    assert(versioned + "/"@ + rest =~= base + "/v1/"@ + rest);
    assert(base + "/"@ + path.drop_first() =~= base + "/v1/"@ + rest);
}

/// A provider that has just served a request is ready for the next one: it is neither paused nor
/// kept for last.
pub proof fn law_serving_makes_ready(p: ProviderView, settings: AppSettings, now: Moment)
    ensures
        !crate::routing::is_sidelined(after_success(p), settings, now),
        after_success(p).consecutive_failures == 0,
{
}

/// A rate limit says "later": it does not turn a provider unhealthy. Any other failure does, unless
/// a probe is under way.
pub proof fn law_rate_limits_are_no_fault(p: ProviderView, failure: Failure, base: nat, now: Moment)
    ensures
        failure == Failure::Status(429) ==> after_failure(p, failure, base, now).status == p.status,
        failure != Failure::Status(429) && p.status != ProviderStatus::Checking ==> after_failure(
            p,
            failure,
            base,
            now,
        ).status == ProviderStatus::Unhealthy,
{
}

/// A second failure in a row, whatever its kind, puts a provider behind the ready ones for as long
/// as its pause lasts.
pub proof fn law_repeated_failures_hold_back(
    p: ProviderView,
    failure: Failure,
    settings: AppSettings,
    now: Moment,
)
    requires
        p.consecutive_failures >= 1,
        settings.cooldown_seconds > 0,
        blamed(p, failure).can_cool(settings.cooldown_seconds as nat, now),
    ensures
        crate::routing::is_sidelined(
            after_failure(p, failure, settings.cooldown_seconds as nat, now),
            settings,
            now,
        ),
{
    crate::models::law_cooldown_begins_with_the_second_failure(
        blamed(p, failure),
        settings.cooldown_seconds as nat,
        now,
        now,
    );
}

/// The log never holds more than fits, begins with the newest entry, and keeps the others in order.
pub proof fn law_log_is_bounded(logs: Seq<RequestLog>, log: RequestLog)
    ensures
        logged(logs, log).len() <= MAX_LOGS,
        logged(logs, log)[0] == log,
        forall|i: int| 1 <= i < logged(logs, log).len() ==> #[trigger] logged(logs, log)[i] == logs[i - 1],
        logs.len() < MAX_LOGS ==> logged(logs, log).len() == logs.len() + 1,
{
}

/// The key for local access, under whatever name it came, never reaches an upstream, and neither do
/// the headers of a single connection.
pub proof fn law_keys_stay_local(name: Seq<char>)
    ensures
        text::same_letters(name, "authorization"@) ==> !passes_on(name),
        text::same_letters(name, "x-api-key"@) ==> !passes_on(name),
        concerns_one_hop(name) ==> !passes_on(name),
{
    assert(text::lowered("authorization"@) == "authorization"@) by {
        reveal_strlit("authorization");
        assert(text::lowered("authorization"@) =~= "authorization"@);
    }
    assert(text::lowered("x-api-key"@) == "x-api-key"@) by {
        reveal_strlit("x-api-key");
        assert(text::lowered("x-api-key"@) =~= "x-api-key"@);
    }
}

/// An upstream gets every header that passes, and besides those nothing but its own key, and that only
/// where it has one: whatever key the request came with, the only one it sees is its own.
pub proof fn law_upstreams_see_their_own_key(headers: Seq<(Seq<char>, Seq<u8>)>, key: Option<Seq<char>>)
    ensures
        ({
            let sent = sent_headers(headers, key);
            &&& forall|i: int|
                0 <= i < sent.len() ==> (headers.contains(#[trigger] sent[i]) && passes_on(sent[i].0)) || (key is Some
                    && sent[i] == bearer_header(key->0))
            &&& forall|i: int|
                0 <= i < sent.len() && text::same_letters((#[trigger] sent[i]).0, "authorization"@) ==> key is Some
                    && sent[i] == bearer_header(key->0)
            &&& forall|i: int| 0 <= i < sent.len() ==> !text::same_letters((#[trigger] sent[i]).0, "x-api-key"@)
            &&& forall|i: int| 0 <= i < headers.len() && passes_on((#[trigger] headers[i]).0) ==> sent.contains(headers[i])
            &&& key is Some ==> sent.contains(bearer_header(key->0))
        }),
{
    let keep = |header: (Seq<char>, Seq<u8>)| passes_on(header.0);
    let passed = headers.filter(keep);
    let sent = sent_headers(headers, key);
    crate::order::lemma_filter_members(headers, keep);
    law_keys_stay_local("authorization"@);
    assert forall|i: int| 0 <= i < sent.len() implies (headers.contains(#[trigger] sent[i]) && passes_on(sent[i].0)) || (
    key is Some && sent[i] == bearer_header(key->0)) by {
        if i < passed.len() {
            assert(sent[i] == passed[i]);
            assert(keep(passed[i]));
        }
    }
    assert forall|i: int| 0 <= i < sent.len() implies !text::same_letters((#[trigger] sent[i]).0, "x-api-key"@) && (
    text::same_letters(sent[i].0, "authorization"@) ==> key is Some && sent[i] == bearer_header(key->0)) by {
        law_keys_stay_local(sent[i].0);
        if !passes_on(sent[i].0) {
            reveal_strlit("authorization");
            reveal_strlit("x-api-key");
            assert(text::lowered("authorization"@).len() != text::lowered("x-api-key"@).len());
        }
    }
    assert forall|i: int| 0 <= i < headers.len() && passes_on((#[trigger] headers[i]).0) implies sent.contains(
        headers[i],
    ) by {
        assert(keep(headers[i]));
        let k = choose|k: int| 0 <= k < passed.len() && passed[k] == headers[i];
        assert(sent[k] == headers[i]);
    }
    if key is Some {
        assert(sent[passed.len() as int] == bearer_header(key->0));
    }
}

/// A request for a model that the upstream has listed, in letters of any case, is sent as it came. So is
/// one that names no model, one to an upstream that has listed nothing or has no model to offer, and every
/// one where models are not to be aligned.
pub proof fn law_listed_models_are_sent_as_they_came(
    body: Seq<u8>,
    p: ProviderView,
    requested: Option<Seq<char>>,
    settings: AppSettings,
)
    requires
        ({
            ||| requested is None
            ||| !settings.remap_model
            ||| p.available_models.len() == 0
            ||| exists|i: int|
                0 <= i < p.available_models.len() && text::same_letters(#[trigger] p.available_models[i], requested->0)
            ||| p.effective_model().len() == 0
            ||| text::same_letters(p.effective_model(), requested->0)
        }),
    ensures
        aligned_body(body, p, requested, settings).0 == body,
        aligned_body(body, p, requested, settings).1 == requested,
{
}

/// A request for a model that the upstream has not listed goes out with the one that the upstream offers in
/// its place, and otherwise as it came; a body without a model to replace is not touched.
pub proof fn law_other_models_are_replaced(
    body: Seq<u8>,
    p: ProviderView,
    requested: Seq<char>,
    settings: AppSettings,
    members: Map<Seq<char>, JsonView>,
)
    requires
        settings.remap_model,
        p.available_models.len() > 0,
        forall|i: int|
            0 <= i < p.available_models.len() ==> !text::same_letters(#[trigger] p.available_models[i], requested),
        p.effective_model().len() > 0,
        !text::same_letters(p.effective_model(), requested),
        crate::json::json_parsed(body) == Some(JsonView::Object(members)),
    ensures
        ({
            let (sent, model) = aligned_body(body, p, Some(requested), settings);
            if members.contains_key("model"@) {
                &&& model == Some(p.effective_model())
                &&& sent == crate::json::json_written(
                    JsonView::Object(members.insert("model"@, JsonView::Str(p.effective_model()))),
                )
            } else {
                sent == body && model == Some(requested)
            }
        }),
{
}

/// A request asks for the model that its body names as a string under `model`, and for none where it is no
/// JSON object or names none so.
pub proof fn law_requests_name_their_model(body: Seq<u8>, model: Seq<char>)
    ensures
        requested_in(body) == Some(model) <==> (crate::json::json_parsed(body) matches Some(JsonView::Object(members))
            && members.contains_key("model"@) && members["model"@] == JsonView::Str(model)),
{
}

/// Where the base address does not end in the version or the path does not begin with it, the path follows
/// the address as it is, with one slash between them.
pub proof fn law_paths_follow_the_address(base: Seq<char>, path: Seq<char>)
    requires
        base.len() > 0 ==> base.last() != '/',
        path.len() > 0 ==> path[0] != '/',
    ensures
        joined_url(base, path) == base + "/"@ + path,
        !("/v1"@.is_suffix_of(base) && "/v1/"@.is_prefix_of("/"@ + path)) ==> joined_url(base, "/"@ + path) == base + "/"@
            + path,
        joined_url(base + "/"@, path) == base + "/"@ + path,
{
    let f = text::only('/');
    let slashed = "/"@ + path;
    reveal_strlit("/");
    reveal_strlit("/v1/");
    assert(text::strip_end(base, f) == base);
    assert(text::strip_start(path, f) == path);
    assert((base + "/"@).drop_last() =~= base);
    assert(text::strip_end(base + "/"@, f) == base);
    assert(slashed.drop_first() =~= path);
    assert(text::strip_start(slashed, f) == path);
    if "/v1/"@.is_prefix_of(path) {
        assert(path.subrange(0, 4)[0] == '/');
    }
}

/// An upstream gets every header but those that concern one connection and those that hold a key.
pub proof fn law_all_but_these_headers_pass(name: Seq<char>)
    ensures
        passes_on(name) <==> !seq![
            "host"@,
            "connection"@,
            "content-length"@,
            "transfer-encoding"@,
            "upgrade"@,
            "proxy-authorization"@,
            "proxy-authenticate"@,
            "te"@,
            "trailer"@,
            "keep-alive"@,
            "authorization"@,
            "x-api-key"@,
        ].contains(text::lowered(name)),
        concerns_one_hop(name) <==> seq![
            "host"@,
            "connection"@,
            "content-length"@,
            "transfer-encoding"@,
            "upgrade"@,
            "proxy-authorization"@,
            "proxy-authenticate"@,
            "te"@,
            "trailer"@,
            "keep-alive"@,
        ].contains(text::lowered(name)),
{
    let hops = seq![
        "host"@,
        "connection"@,
        "content-length"@,
        "transfer-encoding"@,
        "upgrade"@,
        "proxy-authorization"@,
        "proxy-authenticate"@,
        "te"@,
        "trailer"@,
        "keep-alive"@,
    ];
    let all = hops + seq!["authorization"@, "x-api-key"@];
    let lower = text::lowered(name);
    assert(all =~= seq![
        "host"@,
        "connection"@,
        "content-length"@,
        "transfer-encoding"@,
        "upgrade"@,
        "proxy-authorization"@,
        "proxy-authenticate"@,
        "te"@,
        "trailer"@,
        "keep-alive"@,
        "authorization"@,
        "x-api-key"@,
    ]);
    assert(hops[0] == "host"@ && hops[1] == "connection"@ && hops[2] == "content-length"@ && hops[3]
        == "transfer-encoding"@ && hops[4] == "upgrade"@ && hops[5] == "proxy-authorization"@ && hops[6]
        == "proxy-authenticate"@ && hops[7] == "te"@ && hops[8] == "trailer"@ && hops[9] == "keep-alive"@);
    assert(all[10] == "authorization"@ && all[11] == "x-api-key"@);
    if hops.contains(lower) {
        let k = choose|k: int| 0 <= k < hops.len() && hops[k] == lower;
        assert(all[k] == lower);
    }
}

/// A key for local access is asked for where one is set, and only a header that begins with the word
/// `Bearer` and a blank and goes on with exactly that key shows it.
pub proof fn law_only_the_key_opens(expected: Seq<char>, authorization: Option<Seq<char>>)
    ensures
        expected.len() == 0 ==> is_authorized(expected, authorization),
        expected.len() > 0 ==> (is_authorized(expected, authorization) <==> (authorization matches Some(value) && value.len()
            == 7 + expected.len() && value.take(7) == "Bearer "@ && value.skip(7) == expected)),
{
    reveal_strlit("Bearer ");
    if let Some(value) = authorization {
        let wanted = "Bearer "@ + expected;
        assert(wanted.take(7) =~= "Bearer "@);
        assert(wanted.skip(7) =~= expected);
        if value.len() == 7 + expected.len() && value.take(7) == "Bearer "@ && value.skip(7) == expected {
            assert(value =~= value.take(7) + value.skip(7));
        }
    }
}

/// Another upstream is tried after every server error, after the four answers that say to come back later,
/// and, where that is asked for, after the four that refuse the key, the account or the address. Every other
/// answer is the answer.
pub proof fn law_answers_that_fail_over(status: u16, settings: AppSettings)
    ensures
        status / 100 == 5 ==> fails_over(status, settings),
        set![408u16, 409u16, 425u16, 429u16].contains(status) ==> fails_over(status, settings),
        set![401u16, 402u16, 403u16, 404u16].contains(status) ==> fails_over(status, settings)
            == settings.failover_on_client_errors,
        status / 100 != 5 && !set![401u16, 402u16, 403u16, 404u16, 408u16, 409u16, 425u16, 429u16].contains(status)
            ==> !fails_over(status, settings),
        is_success(status) <==> status / 100 == 2,
{
}

/// A served request counts for the provider, ends its pause and its row of failures, clears its error and
/// turns it healthy unless a probe is under way. Nothing else of it changes.
pub proof fn law_serving_is_recorded(p: ProviderView)
    requires
        p.served_count < u64::MAX,
    ensures
        ({
            let after = after_success(p);
            &&& after.served_count == p.served_count + 1
            &&& after.consecutive_failures == 0 && after.cooldown_until is None && after.last_error is None
            &&& p.status == ProviderStatus::Checking ==> after.status == ProviderStatus::Checking
            &&& p.status != ProviderStatus::Checking ==> after.status == ProviderStatus::Healthy
            &&& after == (ProviderView {
                served_count: after.served_count,
                consecutive_failures: after.consecutive_failures,
                cooldown_until: after.cooldown_until,
                last_error: after.last_error,
                status: after.status,
                ..p
            })
        }),
{
}

/// A failed request counts against the provider, lengthens its row of failures by one, leaves word of what
/// went wrong and of whom, and pauses it from the second in a row on. Nothing else of it changes but its
/// status, and that only where the failure was no rate limit and no probe is under way.
pub proof fn law_failing_is_recorded(p: ProviderView, failure: Failure, base: nat, now: Moment)
    requires
        p.failed_count < u64::MAX,
        p.consecutive_failures < u32::MAX,
        blamed(p, failure).can_cool(base, now),
    ensures
        ({
            let after = after_failure(p, failure, base, now);
            &&& after.failed_count == p.failed_count + 1
            &&& after.consecutive_failures == p.consecutive_failures + 1
            &&& after.last_error matches Some(words) && p.name.is_prefix_of(words)
            &&& failure matches Failure::Transport(error) ==> after.last_error == Some(p.name + ": "@ + error@)
            &&& failure matches Failure::Status(code) ==> after.last_error == Some(
                p.name + " 返回 HTTP "@ + status_text(code),
            )
            &&& after.cooldown_until is Some <==> base > 0 && p.consecutive_failures >= 1
            &&& after.status == if failure == Failure::Status(429) || p.status == ProviderStatus::Checking {
                p.status
            } else {
                ProviderStatus::Unhealthy
            }
            &&& after == (ProviderView {
                failed_count: after.failed_count,
                consecutive_failures: after.consecutive_failures,
                last_error: after.last_error,
                cooldown_until: after.cooldown_until,
                status: after.status,
                ..p
            })
        }),
{
    let words = failure.text(p.name);
    assert(p.name =~= words.subrange(0, p.name.len() as int));
}

/// The log begins with the newest entry, keeps the others in their order, and holds three hundred of them at
/// most: the oldest one gives way.
pub proof fn law_log_holds_the_newest(logs: Seq<RequestLog>, log: RequestLog)
    ensures
        logged(logs, log).len() == if logs.len() < 300 {
            logs.len() + 1
        } else {
            300
        },
        logged(logs, log)[0] == log,
        forall|i: int| 0 < i < logged(logs, log).len() ==> #[trigger] logged(logs, log)[i] == logs[i - 1],
{
}

/// An error of the gateway says what went wrong under `error` and `message`, and that it is one of the
/// gateway.
pub proof fn law_errors_say_what_went_wrong(message: Seq<char>)
    ensures
        ({
            let error = crate::json::member_of(error_payload(message), "error"@);
            &&& error matches Some(body)
            &&& crate::json::text_member(body, "message"@) == Some(message)
            &&& crate::json::text_member(body, "type"@) == Some("relaydeck_gateway_error"@)
        }),
{
    reveal_strlit("message");
    reveal_strlit("type");
    assert("message"@.len() != "type"@.len());
}

/// Headers are passed on one by one, each as it came or not at all, and the key of the upstream stands
/// behind them as the credential of the request.
pub proof fn law_headers_are_passed_on_in_order(
    headers: Seq<(Seq<char>, Seq<u8>)>,
    header: (Seq<char>, Seq<u8>),
    key: Seq<char>,
)
    ensures
        sent_headers(Seq::empty(), None) == Seq::<(Seq<char>, Seq<u8>)>::empty(),
        sent_headers(headers.push(header), None) == if passes_on(header.0) {
            sent_headers(headers, None).push(header)
        } else {
            sent_headers(headers, None)
        },
        sent_headers(headers, Some(key)) == sent_headers(headers, None).push(
            ("authorization"@, vstd::utf8::encode_utf8("Bearer "@ + key)),
        ),
{
    let keep = |header: (Seq<char>, Seq<u8>)| passes_on(header.0);
    crate::order::lemma_filter_push(headers, keep, header);
    let none = Seq::<(Seq<char>, Seq<u8>)>::empty();
    assert(none.filter(keep) =~= none) by {
        reveal(Seq::filter);
    }
}

/// From the second failure in a row on, a provider is paused from the moment of the failure: for the base,
/// doubled with every failure after the second, but never for more than a quarter of an hour. The count of
/// failures stays at its greatest value once it is there.
pub proof fn law_failures_pause_for_longer(p: ProviderView, failure: Failure, base: nat, now: Moment)
    requires
        p.consecutive_failures >= 1,
        base > 0,
        blamed(p, failure).can_cool(base, now),
    ensures
        ({
            let after = after_failure(p, failure, base, now);
            &&& p.consecutive_failures == u32::MAX ==> after.consecutive_failures == u32::MAX
            &&& after.cooldown_until matches Some(until) && {
                let grown = base * vstd::arithmetic::power2::pow2((after.consecutive_failures - 2) as nat);
                &&& until.seconds == now.seconds + if grown < 900 {
                    grown as int
                } else {
                    900
                }
                &&& now.nanos < 1_000_000_000 ==> until.nanos == now.nanos
            }
        }),
{
    crate::models::law_pauses_in_seconds(blamed(p, failure), base, now);
}

} // verus!

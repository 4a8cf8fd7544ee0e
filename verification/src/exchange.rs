//! One request through the gateway, from the first attempt to the answer.

use crate::clock::Moment;
use crate::gateway::{self, align_model, error_response, join_url, requested_model, should_failover, Failure, Reply};
use crate::models::{AppConfig, AppSettings, Provider, ProviderView, RequestLog};
use crate::providers;
use crate::routing;
use crate::text;
use vstd::prelude::*;

verus! {

// -------------------------------------------------------------------------------- counters
/// The largest request body that is accepted.
pub const MAX_BODY_SIZE: usize = 64 * 1024 * 1024;

/// What the gateway counts. The counters wrap around.
#[derive(Clone, Copy, Debug)]
pub struct GatewayMetrics {
    pub requests: u64,
    pub successes: u64,
    pub failures: u64,
    pub failovers: u64,
    pub active_connections: u64,
    pub total_latency_ms: u64,
    pub input_bytes: u64,
    pub output_bytes: u64,
    /// When the gateway was started, in seconds since 1970; 0 while it is stopped.
    pub started_at: u64,
}

impl Default for GatewayMetrics {
    fn default() -> (metrics: Self)
        ensures
            metrics == (GatewayMetrics {
                requests: 0,
                successes: 0,
                failures: 0,
                failovers: 0,
                active_connections: 0,
                total_latency_ms: 0,
                input_bytes: 0,
                output_bytes: 0,
                started_at: 0,
            }),
    {
        GatewayMetrics {
            requests: 0,
            successes: 0,
            failures: 0,
            failovers: 0,
            active_connections: 0,
            total_latency_ms: 0,
            input_bytes: 0,
            output_bytes: 0,
            started_at: 0,
        }
    }
}

/// A counter after `by` more, which wraps around.
pub open spec fn counted(counter: u64, by: u64) -> u64 {
    counter.wrapping_add(by)
}

impl GatewayMetrics {
    /// A request is let in.
    pub open spec fn let_in(self) -> GatewayMetrics {
        GatewayMetrics {
            requests: counted(self.requests, 1),
            active_connections: counted(self.active_connections, 1),
            ..self
        }
    }

    /// A request is over, whatever became of it.
    pub open spec fn let_out(self) -> GatewayMetrics {
        GatewayMetrics { active_connections: self.active_connections.wrapping_sub(1), ..self }
    }

    /// A request body has come in.
    pub open spec fn received(self, bytes: u64) -> GatewayMetrics {
        GatewayMetrics { input_bytes: counted(self.input_bytes, bytes), ..self }
    }

    /// A part of a response has gone out.
    pub open spec fn sent(self, bytes: u64) -> GatewayMetrics {
        GatewayMetrics { output_bytes: counted(self.output_bytes, bytes), ..self }
    }

    /// No upstream could be tried.
    pub open spec fn turned_away(self) -> GatewayMetrics {
        GatewayMetrics { failures: counted(self.failures, 1), ..self }
    }

    /// One upstream failed and the next one is tried.
    pub open spec fn failed_over(self) -> GatewayMetrics {
        GatewayMetrics { failovers: counted(self.failovers, 1), ..self }
    }

    /// The response of an upstream is passed on.
    pub open spec fn answered(self, success: bool, elapsed_ms: u64) -> GatewayMetrics {
        GatewayMetrics {
            successes: if success {
                counted(self.successes, 1)
            } else {
                self.successes
            },
            failures: if success {
                self.failures
            } else {
                counted(self.failures, 1)
            },
            total_latency_ms: counted(self.total_latency_ms, elapsed_ms),
            ..self
        }
    }

    /// Counts a request that is let in.
    pub fn open(&mut self)
        ensures
            *final(self) == old(self).let_in(),
    {
        self.requests = self.requests.wrapping_add(1);
        self.active_connections = self.active_connections.wrapping_add(1);
    }

    /// Counts a request that is over.
    pub fn close(&mut self)
        ensures
            *final(self) == old(self).let_out(),
    {
        self.active_connections = self.active_connections.wrapping_sub(1);
    }

    /// Counts a part of a response that has gone out.
    pub fn send(&mut self, bytes: u64)
        ensures
            *final(self) == old(self).sent(bytes),
    {
        self.output_bytes = self.output_bytes.wrapping_add(bytes);
    }
}

// ------------------------------------------------------------------------------- the door
/// Lets a request in that shows the key for local access; answers any other one.
pub fn check_access(settings: &AppSettings, authorization: Option<&str>, metrics: &mut GatewayMetrics) -> (refusal: Option<Reply>)
    ensures
        refusal is None <==> gateway::is_authorized(settings.local_access_key@, authorization.deep_view()),
        refusal matches Some(reply) ==> reply.is_error(401, "invalid RelayDeck local access key"@) && *final(metrics)
            == *old(metrics),
        refusal is None ==> *final(metrics) == old(metrics).let_in(),
{
    if gateway::authorized(settings.local_access_key.as_str(), authorization) {
        metrics.open();
        None
    } else {
        Some(error_response(401, "invalid RelayDeck local access key"))
    }
}

/// The answer to a request whose body could not be read.
pub fn refuse_body(error: &str) -> (reply: Reply)
    ensures
        reply.is_error(413, "request body rejected: "@ + error@),
{
    let message = text::cat("request body rejected: ", error);
    error_response(413, message.as_str())
}

// --------------------------------------------------------------------------- the exchange
/// A request that is under way: the upstreams it may try, and the one it is trying.
#[derive(Debug)]
pub struct Exchange {
    pub settings: AppSettings,
    pub method: String,
    pub path: String,
    pub body: Vec<u8>,
    pub requested_model: Option<String>,
    pub candidates: Vec<Provider>,
    /// How many of the candidates may be tried.
    pub budget: usize,
    /// How many have been tried, the current one included.
    pub attempts: usize,
    /// What is sent to the current one.
    pub payload: Vec<u8>,
    /// The model that it is asked for.
    pub upstream_model: Option<String>,
}

impl Exchange {
    /// The provider that is being tried.
    pub open spec fn current(self) -> ProviderView {
        self.candidates@[self.attempts - 1]@
    }

    /// Some candidate within the budget is being tried, with the body that suits it.
    pub open spec fn is_valid(self) -> bool {
        &&& 1 <= self.attempts <= self.budget <= self.candidates@.len()
        &&& self.budget == routing::budget_of(self.candidates@.len(), self.settings.max_failover_attempts as nat)
        &&& self.requested_model.deep_view() == gateway::requested_in(self.body@)
        &&& (self.payload@, self.upstream_model.deep_view()) == gateway::aligned_body(
            self.body@,
            self.current(),
            self.requested_model.deep_view(),
            self.settings,
        )
    }

    /// The same request with the same upstreams.
    pub open spec fn same_request(self, other: Exchange) -> bool {
        &&& self.settings == other.settings
        &&& self.method == other.method
        &&& self.path == other.path
        &&& self.body == other.body
        &&& self.requested_model == other.requested_model
        &&& self.candidates == other.candidates
        &&& self.budget == other.budget
    }

    /// The provider that is being tried.
    pub fn provider(&self) -> (provider: &Provider)
        requires
            self.is_valid(),
        ensures
            provider@ == self.current(),
    {
        &self.candidates[self.attempts - 1]
    }

    /// The address that the current attempt goes to.
    pub fn url(&self) -> (url: String)
        requires
            self.is_valid(),
        ensures
            url@ == gateway::joined_url(self.current().base_url, self.path@),
    {
        join_url(self.provider().base_url.as_str(), self.path.as_str())
    }
}

/// Starts a request: chooses its upstreams and prepares the first attempt. Where there is no
/// upstream at all, that is answered.
pub fn begin(
    config: &AppConfig,
    settings: AppSettings,
    cursor: &mut usize,
    metrics: &mut GatewayMetrics,
    method: String,
    path: String,
    body: Vec<u8>,
    now: Moment,
) -> (r: Result<Exchange, Reply>)
    ensures
        *final(cursor) == routing::cursor_after(config@.providers, settings, *old(cursor), now),
        r is Ok <==> routing::candidates_of(config@.providers, settings, *old(cursor) as nat, now).len() > 0,
        r matches Ok(exchange) ==> {
            &&& exchange.is_valid()
            &&& exchange.attempts == 1
            &&& exchange.candidates.deep_view() == routing::candidates_of(
                config@.providers,
                settings,
                *old(cursor) as nat,
                now,
            )
            &&& exchange.settings == settings
            &&& exchange.method == method
            &&& exchange.path == path
            &&& exchange.body == body
            &&& *final(metrics) == old(metrics).received(body@.len() as u64)
        },
        r matches Err(reply) ==> {
            &&& reply.is_error(503, "没有可用的中转节点，请先启用并测活 Provider"@)
            &&& *final(metrics) == old(metrics).received(body@.len() as u64).turned_away()
        },
{
    let received: u64 = body.len() as u64;
    metrics.input_bytes = metrics.input_bytes.wrapping_add(received);
    let candidates = routing::select_candidates(config, &settings, cursor, now);
    if candidates.len() == 0 {
        metrics.failures = metrics.failures.wrapping_add(1);
        return Err(error_response(503, "没有可用的中转节点，请先启用并测活 Provider"));
    }
    let requested = requested_model(&body);
    let budget: usize = routing::attempt_budget(candidates.len(), settings.max_failover_attempts);
    let asked = match &requested {
        Some(model) => Some(model.as_str()),
        None => None,
    };
    let (payload, upstream_model) = align_model(&body, &candidates[0], asked, &settings);
    Ok(
        Exchange {
            settings,
            method,
            path,
            body,
            requested_model: requested,
            candidates,
            budget,
            attempts: 1,
            payload,
            upstream_model,
        },
    )
}

/// What became of an attempt: a response with this status, or no response at all.
#[derive(Debug)]
pub enum Outcome {
    Response(u16),
    NoResponse(String),
}

impl Outcome {
    /// A status has three digits.
    pub open spec fn is_valid(self) -> bool {
        self matches Outcome::Response(status) ==> 100 <= status <= 999
    }

    /// The failure that the outcome is, if the attempt is held to have failed.
    pub open spec fn as_failure(self) -> Failure {
        match self {
            Outcome::Response(status) => Failure::Status(status),
            Outcome::NoResponse(error) => Failure::Transport(error),
        }
    }
}

/// What to do next.
#[derive(Debug)]
pub enum Step {
    /// Try the next upstream.
    Retry(Exchange),
    /// Pass the response on; this goes into the log.
    Relay(RequestLog),
    /// Give this answer; that goes into the log.
    Fail(RequestLog, Reply),
}

/// The response is passed on: it says something that another upstream would not say better, or there
/// is no other upstream to try.
pub open spec fn is_final(exchange: Exchange, outcome: Outcome) -> bool {
    outcome matches Outcome::Response(status) && (!gateway::fails_over(status, exchange.settings) || exchange.attempts
        >= exchange.budget)
}

/// The attempt is remembered as served.
pub open spec fn is_served(exchange: Exchange, outcome: Outcome) -> bool {
    is_final(exchange, outcome) && gateway::is_success(outcome->Response_0)
}

/// The providers after an attempt with this outcome.
pub open spec fn providers_after(
    list: Seq<ProviderView>,
    exchange: Exchange,
    outcome: Outcome,
    now: Moment,
) -> Seq<ProviderView> {
    if is_served(exchange, outcome) {
        providers::changed(list, exchange.current().id, |p: ProviderView| gateway::after_success(p))
    } else {
        providers::changed(
            list,
            exchange.current().id,
            |p: ProviderView|
                gateway::after_failure(p, outcome.as_failure(), exchange.settings.cooldown_seconds as nat, now),
        )
    }
}

/// There is room to remember the outcome.
pub open spec fn outcome_fits(list: Seq<ProviderView>, exchange: Exchange, outcome: Outcome, now: Moment) -> bool {
    if is_served(exchange, outcome) {
        gateway::success_fits(list, exchange.current().id)
    } else {
        gateway::failure_fits(
            list,
            exchange.current().id,
            outcome.as_failure(),
            exchange.settings.cooldown_seconds as nat,
            now,
        )
    }
}

/// The log entry for a response that is passed on.
pub open spec fn relay_entry(exchange: Exchange, status: u16, elapsed_ms: u64, now: Moment, log: RequestLog) -> bool {
    &&& crate::ids::is_uuid(log.id@)
    &&& log.timestamp == now
    &&& log.method@ == exchange.method@
    &&& log.path@ == exchange.path@
    &&& log.provider_name@ == exchange.current().name
    &&& log.status_code == status
    &&& log.latency_ms == elapsed_ms
    &&& log.attempts == exchange.attempts
    &&& log.requested_model.deep_view() == exchange.requested_model.deep_view()
    &&& log.upstream_model.deep_view() == exchange.upstream_model.deep_view()
    &&& log.error.deep_view() == if gateway::is_success(status) {
        None
    } else {
        Some("HTTP "@ + gateway::status_text(status))
    }
}

/// The log entry for a request that no upstream answered.
pub open spec fn failure_entry(exchange: Exchange, failure: Failure, elapsed_ms: u64, now: Moment, log: RequestLog) -> bool {
    &&& crate::ids::is_uuid(log.id@)
    &&& log.timestamp == now
    &&& log.method@ == exchange.method@
    &&& log.path@ == exchange.path@
    &&& log.provider_name@ == "无可用节点"@
    &&& log.status_code == 502
    &&& log.latency_ms == elapsed_ms
    &&& log.attempts == exchange.attempts
    &&& log.requested_model.deep_view() == exchange.requested_model.deep_view()
    &&& log.upstream_model is None
    &&& log.error.deep_view() == Some(failure.text(exchange.current().name))
}

fn note_relay(exchange: &Exchange, status: u16, elapsed_ms: u64, now: Moment) -> (log: RequestLog)
    requires
        exchange.is_valid(),
        100 <= status <= 999,
    ensures
        relay_entry(*exchange, status, elapsed_ms, now, log),
{
    let error = if 200 <= status && status <= 299 {
        None
    } else {
        let words = gateway::write_status(status);
        Some(text::cat("HTTP ", words.as_str()))
    };
    RequestLog {
        id: crate::ids::fresh_id(),
        timestamp: now,
        method: exchange.method.clone(),
        path: exchange.path.clone(),
        provider_name: exchange.provider().name.clone(),
        status_code: status,
        latency_ms: elapsed_ms,
        attempts: exchange.attempts,
        requested_model: text::copied(&exchange.requested_model),
        upstream_model: text::copied(&exchange.upstream_model),
        error,
    }
}

/// Moves a request on after an attempt: remembers what became of it, and decides whether to pass the
/// response on, to try the next upstream or to give up.
pub fn advance(
    exchange: Exchange,
    outcome: Outcome,
    config: &mut AppConfig,
    metrics: &mut GatewayMetrics,
    elapsed_ms: u64,
    now: Moment,
) -> (step: Step)
    requires
        exchange.is_valid(),
        outcome.is_valid(),
        outcome_fits(old(config)@.providers, exchange, outcome, now),
    ensures
        final(config).settings == old(config).settings,
        final(config)@.providers == providers_after(old(config)@.providers, exchange, outcome, now),
        step is Relay <==> is_final(exchange, outcome),
        step is Retry <==> !is_final(exchange, outcome) && exchange.attempts < exchange.budget,
        step matches Step::Relay(log) ==> {
            &&& relay_entry(exchange, outcome->Response_0, elapsed_ms, now, log)
            &&& *final(metrics) == old(metrics).answered(gateway::is_success(outcome->Response_0), elapsed_ms)
        },
        step matches Step::Retry(next) ==> {
            &&& next.is_valid()
            &&& next.same_request(exchange)
            &&& next.attempts == exchange.attempts + 1
            &&& *final(metrics) == old(metrics).failed_over()
        },
        step matches Step::Fail(log, reply) ==> {
            &&& failure_entry(exchange, outcome.as_failure(), elapsed_ms, now, log)
            &&& reply.is_error(502, "所有节点都失败了: "@ + outcome.as_failure().text(exchange.current().name))
            &&& *final(metrics) == old(metrics).answered(false, elapsed_ms)
        },
{
    let last_attempt = exchange.attempts >= exchange.budget;
    let failure = match outcome {
        Outcome::Response(status) => {
            if !should_failover(status, &exchange.settings) || last_attempt {
                metrics.total_latency_ms = metrics.total_latency_ms.wrapping_add(elapsed_ms);
                if 200 <= status && status <= 299 {
                    metrics.successes = metrics.successes.wrapping_add(1);
                    gateway::record_success(config, exchange.provider().id.as_str());
                } else {
                    metrics.failures = metrics.failures.wrapping_add(1);
                    gateway::record_failure(
                        config,
                        exchange.provider().id.as_str(),
                        &Failure::Status(status),
                        &exchange.settings,
                        now,
                    );
                }
                return Step::Relay(note_relay(&exchange, status, elapsed_ms, now));
            }
            Failure::Status(status)
        },
        Outcome::NoResponse(error) => Failure::Transport(error),
    };
    let last_error = failure.message(exchange.provider().name.as_str());
    gateway::record_failure(config, exchange.provider().id.as_str(), &failure, &exchange.settings, now);
    if last_attempt {
        metrics.failures = metrics.failures.wrapping_add(1);
        metrics.total_latency_ms = metrics.total_latency_ms.wrapping_add(elapsed_ms);
        let message = text::cat("所有节点都失败了: ", last_error.as_str());
        let log = RequestLog {
            id: crate::ids::fresh_id(),
            timestamp: now,
            method: exchange.method.clone(),
            path: exchange.path.clone(),
            provider_name: "无可用节点".to_owned(),
            status_code: 502,
            latency_ms: elapsed_ms,
            attempts: exchange.attempts,
            requested_model: text::copied(&exchange.requested_model),
            upstream_model: None,
            error: Some(last_error),
        };
        return Step::Fail(log, error_response(502, message.as_str()));
    }
    metrics.failovers = metrics.failovers.wrapping_add(1);
    let asked = match &exchange.requested_model {
        Some(model) => Some(model.as_str()),
        None => None,
    };
    let (payload, upstream_model) = align_model(
        &exchange.body,
        &exchange.candidates[exchange.attempts],
        asked,
        &exchange.settings,
    );
    let mut next = exchange;
    next.attempts = next.attempts + 1;
    next.payload = payload;
    next.upstream_model = upstream_model;
    Step::Retry(next)
}

// ------------------------------------------------------------------------------------ laws
/// One exchange came out of the other by a retry.
pub open spec fn follows(next: Exchange, before: Exchange) -> bool {
    next.is_valid() && next.same_request(before) && next.attempts == before.attempts + 1
}

/// A request comes to an end: it never takes more attempts than its budget, and it tries the
/// candidates in their order, each at most once.
pub proof fn law_requests_end(run: Seq<Exchange>)
    requires
        run.len() > 0,
        run[0].is_valid(),
        run[0].attempts == 1,
        forall|k: int| 0 < k < run.len() ==> follows(#[trigger] run[k], run[k - 1]),
    ensures
        run.len() <= run[0].budget,
        run.len() <= run[0].candidates@.len(),
        run[0].settings.max_failover_attempts > 0 ==> run.len() <= run[0].settings.max_failover_attempts,
        forall|k: int| 0 <= k < run.len() ==> (#[trigger] run[k]).current() == run[0].candidates@[k]@,
    decreases run.len(),
{
    if run.len() > 1 {
        let t = run.drop_last();
        assert forall|k: int| 0 < k < t.len() implies follows(#[trigger] t[k], t[k - 1]) by {
            assert(follows(run[k], run[k - 1]));
        }
        law_requests_end(t);
        lemma_run(run, run.len() - 1);
        assert forall|k: int| 0 <= k < run.len() implies (#[trigger] run[k]).current() == run[0].candidates@[k]@ by {
            lemma_run(run, k);
        }
    }
}

proof fn lemma_run(run: Seq<Exchange>, k: int)
    requires
        0 <= k < run.len(),
        run[0].is_valid(),
        run[0].attempts == 1,
        forall|k: int| 0 < k < run.len() ==> follows(#[trigger] run[k], run[k - 1]),
    ensures
        run[k].is_valid(),
        run[k].same_request(run[0]),
        run[k].attempts == k + 1,
    decreases k,
{
    if k > 0 {
        lemma_run(run, k - 1);
        assert(follows(run[k], run[k - 1]));
    }
}

/// A response that another upstream would not say better reaches the client from the very first
/// attempt: the request neither switches nor is it answered by the gateway itself.
pub proof fn law_plain_responses_are_passed_on(exchange: Exchange, status: u16)
    requires
        !gateway::fails_over(status, exchange.settings),
    ensures
        is_final(exchange, Outcome::Response(status)),
{
}

/// The last upstream in the budget has the last word: what it responds is passed on, even an error.
pub proof fn law_last_response_is_passed_on(exchange: Exchange, status: u16)
    requires
        exchange.is_valid(),
        exchange.attempts == exchange.budget,
    ensures
        is_final(exchange, Outcome::Response(status)),
{
}

/// A request that is let in and ends leaves the count of requests under way as it was.
pub proof fn law_connections_balance(metrics: GatewayMetrics)
    ensures
        metrics.let_in().let_out().active_connections == metrics.active_connections,
{
}

/// What becomes of an attempt: an answer that is not to be replaced is passed on, whatever it says; one that
/// is to be replaced, and a silence, lead to the next upstream as long as the request may try another. Of
/// the last one, the answer is passed on and only a silence fails the request.
pub proof fn law_what_becomes_of_an_attempt(exchange: Exchange, outcome: Outcome)
    requires
        exchange.is_valid(),
    ensures
        outcome is NoResponse ==> !is_final(exchange, outcome),
        outcome matches Outcome::Response(status) ==> {
            &&& status / 100 == 2 || status / 100 == 3 || status == 400 || status == 422 ==> is_final(exchange, outcome)
            &&& status / 100 == 5 || status == 429 || status == 408 ==> (is_final(exchange, outcome) <==> exchange.attempts
                == exchange.budget)
            &&& 401 <= status <= 404 ==> (is_final(exchange, outcome) <==> exchange.attempts == exchange.budget
                || !exchange.settings.failover_on_client_errors)
        },
        exchange.budget == if exchange.settings.max_failover_attempts > 0 && exchange.settings.max_failover_attempts
            < exchange.candidates@.len() {
            exchange.settings.max_failover_attempts as nat
        } else {
            exchange.candidates@.len()
        },
{
}

/// An attempt counts for the provider that was tried where its answer is passed on and says success, and
/// against it otherwise; no other provider is touched.
pub proof fn law_attempts_are_recorded(
    list: Seq<ProviderView>,
    exchange: Exchange,
    outcome: Outcome,
    now: Moment,
    at: int,
)
    requires
        exchange.is_valid(),
        0 <= at < list.len(),
        list[at].id == exchange.current().id,
        forall|i: int| 0 <= i < at ==> (#[trigger] list[i]).id != exchange.current().id,
        list[at].served_count < u64::MAX,
        list[at].failed_count < u64::MAX,
    ensures
        ({
            let after = providers_after(list, exchange, outcome, now);
            let served = is_final(exchange, outcome) && outcome->Response_0 / 100 == 2;
            &&& after.len() == list.len()
            &&& forall|i: int| 0 <= i < list.len() && i != at ==> #[trigger] after[i] == list[i]
            &&& after[at].served_count == list[at].served_count + if served {
                1int
            } else {
                0
            }
            &&& after[at].failed_count == list[at].failed_count + if served {
                0int
            } else {
                1
            }
            &&& served ==> after[at].cooldown_until is None
            &&& !served && list[at].consecutive_failures < u32::MAX ==> after[at].consecutive_failures
                == list[at].consecutive_failures + 1
        }),
{
    providers::lemma_find_id(list, exchange.current().id);
}

/// The entry of the log for an answer that was passed on tells when it came, what was asked, which provider
/// answered and how, how long it took and after how many attempts, and which models were asked for and sent.
pub proof fn law_log_tells_of_answers(exchange: Exchange, status: u16, elapsed_ms: u64, now: Moment, log: RequestLog)
    requires
        exchange.is_valid(),
        relay_entry(exchange, status, elapsed_ms, now, log),
    ensures
        log.timestamp == now && log.method@ == exchange.method@ && log.path@ == exchange.path@,
        log.provider_name@ == exchange.candidates@[exchange.attempts - 1].name@,
        log.status_code == status && log.latency_ms == elapsed_ms && log.attempts == exchange.attempts,
        log.requested_model.deep_view() == exchange.requested_model.deep_view(),
        log.upstream_model.deep_view() == exchange.upstream_model.deep_view(),
        log.error is None <==> status / 100 == 2,
        log.error matches Some(words) ==> words@ == "HTTP "@ + gateway::status_text(status),
{
}

/// The entry of the log for a request that no upstream answered names no provider and no model that was
/// sent, and says what went wrong at the last one.
pub proof fn law_log_tells_of_failures(exchange: Exchange, failure: Failure, elapsed_ms: u64, now: Moment, log: RequestLog)
    requires
        exchange.is_valid(),
        failure_entry(exchange, failure, elapsed_ms, now, log),
    ensures
        log.timestamp == now && log.method@ == exchange.method@ && log.path@ == exchange.path@,
        log.provider_name@ == "无可用节点"@,
        log.status_code == 502 && log.latency_ms == elapsed_ms && log.attempts == exchange.attempts,
        log.requested_model.deep_view() == exchange.requested_model.deep_view(),
        log.upstream_model is None,
        failure matches Failure::Transport(error) ==> log.error.deep_view() == Some(
            exchange.candidates@[exchange.attempts - 1].name@ + ": "@ + error@,
        ),
{
}

/// A request that is let in counts once and stands open until it is let out; each that is answered counts as
/// a success or as a failure and adds its time; bytes, refusals and changes of upstream add up.
pub proof fn law_figures_add_up(m: GatewayMetrics, bytes: u64, elapsed_ms: u64, success: bool)
    requires
        m.requests < u64::MAX,
        m.active_connections < u64::MAX,
        m.successes < u64::MAX,
        m.failures < u64::MAX,
        m.failovers < u64::MAX,
        m.input_bytes + bytes <= u64::MAX,
        m.output_bytes + bytes <= u64::MAX,
        m.total_latency_ms + elapsed_ms <= u64::MAX,
    ensures
        m.let_in() == (GatewayMetrics {
            requests: (m.requests + 1) as u64,
            active_connections: (m.active_connections + 1) as u64,
            ..m
        }),
        m.let_in().let_out() == (GatewayMetrics { requests: (m.requests + 1) as u64, ..m }),
        m.received(bytes) == (GatewayMetrics { input_bytes: (m.input_bytes + bytes) as u64, ..m }),
        m.sent(bytes) == (GatewayMetrics { output_bytes: (m.output_bytes + bytes) as u64, ..m }),
        m.turned_away() == (GatewayMetrics { failures: (m.failures + 1) as u64, ..m }),
        m.failed_over() == (GatewayMetrics { failovers: (m.failovers + 1) as u64, ..m }),
        m.answered(true, elapsed_ms) == (GatewayMetrics {
            successes: (m.successes + 1) as u64,
            total_latency_ms: (m.total_latency_ms + elapsed_ms) as u64,
            ..m
        }),
        m.answered(false, elapsed_ms) == (GatewayMetrics {
            failures: (m.failures + 1) as u64,
            total_latency_ms: (m.total_latency_ms + elapsed_ms) as u64,
            ..m
        }),
{
}

/// What is sent to the upstream that is tried: where that one has listed the model, the body as it came;
/// and the model that is reported is the one in what is sent.
pub proof fn law_attempts_send_what_the_upstream_serves(exchange: Exchange, model: Seq<char>, i: int)
    requires
        exchange.is_valid(),
        exchange.requested_model.deep_view() == Some(model),
        0 <= i < exchange.current().available_models.len(),
        crate::text::same_letters(exchange.current().available_models[i], model),
    ensures
        exchange.payload@ == exchange.body@,
        exchange.upstream_model.deep_view() == Some(model),
{
    gateway::law_listed_models_are_sent_as_they_came(
        exchange.body@,
        exchange.current(),
        Some(model),
        exchange.settings,
    );
}

/// An attempt is the last one exactly where an answer came and either it is none to fail over on or every
/// attempt that the request may take has been made.
pub proof fn law_when_an_attempt_is_the_last(exchange: Exchange, status: u16)
    requires
        exchange.is_valid(),
    ensures
        is_final(exchange, Outcome::Response(status)) <==> exchange.attempts == exchange.budget || !(status == 408 || status
            == 409 || status
            == 425 || status == 429 || status / 100 == 5 || (exchange.settings.failover_on_client_errors && (status == 401
            || status == 402 || status == 403 || status == 404))),
{
}

} // verus!

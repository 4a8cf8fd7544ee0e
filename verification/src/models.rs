//! The data that RelayDeck keeps and reports.

use crate::clock::Moment;
use crate::text;
use vstd::prelude::*;

verus! {

/// Health samples kept per provider so the dashboard can draw a short availability trend.
pub const HEALTH_HISTORY_LIMIT: usize = 20;

/// The longest pause that repeated failures earn.
pub const LONGEST_COOLDOWN_SECONDS: u64 = 900;

// ------------------------------------------------------------------------------- providers
/// One upstream.
#[derive(Debug)]
pub struct Provider {
    pub id: String,
    pub name: String,
    pub base_url: String,
    pub api_key: Option<String>,
    pub has_key: bool,
    pub model: String,
    /// Model the user pinned by hand. Empty means "follow automatic selection".
    pub model_override: Option<String>,
    pub available_models: Vec<String>,
    pub enabled: bool,
    pub priority: u32,
    pub status: ProviderStatus,
    pub latency_ms: Option<u64>,
    pub last_checked_at: Option<Moment>,
    pub last_error: Option<String>,
    pub consecutive_failures: u32,
    pub cooldown_until: Option<Moment>,
    pub served_count: u64,
    pub failed_count: u64,
    pub health_history: Vec<HealthSample>,
}

/// What a provider holds.
pub struct ProviderView {
    pub id: Seq<char>,
    pub name: Seq<char>,
    pub base_url: Seq<char>,
    pub api_key: Option<Seq<char>>,
    pub has_key: bool,
    pub model: Seq<char>,
    pub model_override: Option<Seq<char>>,
    pub available_models: Seq<Seq<char>>,
    pub enabled: bool,
    pub priority: u32,
    pub status: ProviderStatus,
    pub latency_ms: Option<u64>,
    pub last_checked_at: Option<Moment>,
    pub last_error: Option<Seq<char>>,
    pub consecutive_failures: u32,
    pub cooldown_until: Option<Moment>,
    pub served_count: u64,
    pub failed_count: u64,
    pub health_history: Seq<HealthSample>,
}

impl View for Provider {
    type V = ProviderView;

    open spec fn view(&self) -> ProviderView {
        ProviderView {
            id: self.id@,
            name: self.name@,
            base_url: self.base_url@,
            api_key: self.api_key.deep_view(),
            has_key: self.has_key,
            model: self.model@,
            model_override: self.model_override.deep_view(),
            available_models: self.available_models.deep_view(),
            enabled: self.enabled,
            priority: self.priority,
            status: self.status,
            latency_ms: self.latency_ms,
            last_checked_at: self.last_checked_at,
            last_error: self.last_error.deep_view(),
            consecutive_failures: self.consecutive_failures,
            cooldown_until: self.cooldown_until,
            served_count: self.served_count,
            failed_count: self.failed_count,
            health_history: self.health_history@,
        }
    }
}

impl DeepView for Provider {
    type V = ProviderView;

    open spec fn deep_view(&self) -> ProviderView {
        self@
    }
}

impl Clone for Provider {
    fn clone(&self) -> (copy: Self)
        ensures
            copy@ == self@,
    {
        Provider {
            id: self.id.clone(),
            name: self.name.clone(),
            base_url: self.base_url.clone(),
            api_key: text::copied(&self.api_key),
            has_key: self.has_key,
            model: self.model.clone(),
            model_override: text::copied(&self.model_override),
            available_models: text::copied_all(&self.available_models),
            enabled: self.enabled,
            priority: self.priority,
            status: self.status,
            latency_ms: self.latency_ms,
            last_checked_at: self.last_checked_at,
            last_error: text::copied(&self.last_error),
            consecutive_failures: self.consecutive_failures,
            cooldown_until: self.cooldown_until,
            served_count: self.served_count,
            failed_count: self.failed_count,
            health_history: copied_samples(&self.health_history),
        }
    }
}

fn copied_samples(samples: &Vec<HealthSample>) -> (copy: Vec<HealthSample>)
    ensures
        copy@ == samples@,
{
    let mut copy: Vec<HealthSample> = Vec::new();
    let mut i: usize = 0;
    while i < samples.len()
        invariant
            i <= samples@.len(),
            copy@ == samples@.take(i as int),
        decreases samples@.len() - i,
    {
        copy.push(samples[i]);
        i = i + 1;
        proof {
            assert(samples@.take(i as int) =~= samples@.take(i - 1).push(samples@[i - 1]));
        }
    }
    assert(samples@.take(i as int) =~= samples@);
    copy
}

/// The pause after `failures` failures in a row: the base, doubled with every failure from the third
/// on, and never more than a quarter of an hour.
pub open spec fn backoff_seconds(base: nat, failures: nat) -> nat {
    let doublings: nat = if failures < 2 {
        0
    } else {
        (failures - 2) as nat
    };
    let grown = base * vstd::arithmetic::power2::pow2(doublings);
    if grown > LONGEST_COOLDOWN_SECONDS {
        LONGEST_COOLDOWN_SECONDS as nat
    } else {
        grown
    }
}

proof fn lemma_one_doubling(base: nat, n: nat)
    ensures
        base * vstd::arithmetic::power2::pow2(n + 1) == 2 * (base * vstd::arithmetic::power2::pow2(n)),
{
    let factor = vstd::arithmetic::power2::pow2(n);
    vstd::arithmetic::power2::lemma_pow2_unfold(n + 1);
    assert(base * (2 * factor) == 2 * (base * factor)) by (nonlinear_arith);
}

proof fn lemma_doublings_grow(base: nat, few: nat, many: nat)
    requires
        few <= many,
    ensures
        base * vstd::arithmetic::power2::pow2(few) <= base * vstd::arithmetic::power2::pow2(many),
    decreases many - few,
{
    if few < many {
        lemma_doublings_grow(base, few, (many - 1) as nat);
        lemma_one_doubling(base, (many - 1) as nat);
    }
}

/// Whether failures earn a pause at all: from the second in a row on, if pauses are switched on.
pub open spec fn earns_cooldown(base: nat, failures: nat) -> bool {
    base > 0 && failures >= 2
}

/// The last `limit` items of `s`.
pub open spec fn newest<T>(s: Seq<T>, limit: nat) -> Seq<T> {
    if s.len() > limit {
        s.skip(s.len() - limit)
    } else {
        s
    }
}

impl ProviderView {
    /// The manual pin when present, otherwise the discovered model.
    pub open spec fn effective_model(self) -> Seq<char> {
        match self.model_override {
            Some(pin) => if text::is_blank(pin) {
                self.model
            } else {
                text::trimmed(pin)
            },
            None => self.model,
        }
    }

    /// Paused until a point after `now`.
    pub open spec fn in_cooldown(self, now: Moment) -> bool {
        match self.cooldown_until {
            Some(until) => until.is_after(now),
            None => false,
        }
    }

    /// The upstream listed this model, in letters of any case.
    pub open spec fn knows_model(self, model: Seq<char>) -> bool {
        exists|i: int|
            0 <= i < self.available_models.len() && text::same_letters(#[trigger] self.available_models[i], model)
    }

    /// Could serve traffic at all.
    pub open spec fn is_routable(self) -> bool {
        self.enabled && self.api_key is Some
    }

    /// The provider after a clean slate for its failures.
    pub open spec fn without_cooldown(self) -> ProviderView {
        ProviderView { consecutive_failures: 0, cooldown_until: None, ..self }
    }

    /// The provider with the pause that its failures have earned by `now`.
    pub open spec fn with_cooldown(self, base: nat, now: Moment) -> ProviderView {
        ProviderView {
            cooldown_until: if earns_cooldown(base, self.consecutive_failures as nat) {
                Some(now.plus(backoff_seconds(base, self.consecutive_failures as nat) as int))
            } else {
                None
            },
            ..self
        }
    }

    /// The pause that its failures have earned by `now` ends within the calendar.
    pub open spec fn can_cool(self, base: nat, now: Moment) -> bool {
        earns_cooldown(base, self.consecutive_failures as nat) ==> now.is_valid() && now.seconds + backoff_seconds(
            base,
            self.consecutive_failures as nat,
        ) <= crate::clock::LAST_SECOND
    }

    /// The provider with one more health sample, and only the newest ones kept.
    pub open spec fn with_sample(self, sample: HealthSample) -> ProviderView {
        ProviderView {
            health_history: newest(self.health_history.push(sample), HEALTH_HISTORY_LIMIT as nat),
            ..self
        }
    }
}

impl Provider {
    /// Model actually sent upstream: the manual pin when present, otherwise the discovered one.
    pub fn effective_model(&self) -> (model: &str)
        ensures
            model@ == self@.effective_model(),
    {
        match &self.model_override {
            Some(pin) => {
                let trimmed = text::trim(pin.as_str());
                if trimmed.is_empty() {
                    self.model.as_str()
                } else {
                    trimmed
                }
            },
            None => self.model.as_str(),
        }
    }

    /// Whether the provider is paused at `now`.
    pub fn in_cooldown(&self, now: Moment) -> (r: bool)
        ensures
            r == self@.in_cooldown(now),
    {
        match self.cooldown_until {
            Some(until) => until.after(now),
            None => false,
        }
    }

    /// Whether the upstream listed this model, in letters of any case.
    pub fn knows_model(&self, model: &str) -> (r: bool)
        ensures
            r == self@.knows_model(model@),
    {
        let mut i: usize = 0;
        while i < self.available_models.len()
            invariant
                i <= self.available_models@.len(),
                forall|k: int|
                    0 <= k < i ==> !text::same_letters(#[trigger] self@.available_models[k], model@),
            decreases self.available_models@.len() - i,
        {
            if text::eq_ignore_ascii_case(self.available_models[i].as_str(), model) {
                assert(text::same_letters(self@.available_models[i as int], model@));
                return true;
            }
            i = i + 1;
        }
        false
    }

    /// Whether the provider could serve traffic at all.
    pub fn routes(&self) -> (r: bool)
        ensures
            r == self@.is_routable(),
    {
        self.enabled && self.api_key.is_some()
    }

    /// Adds a health sample and drops the oldest ones over the limit.
    pub fn record_health(&mut self, ok: bool, latency_ms: Option<u64>, at: Moment)
        ensures
            final(self)@ == old(self)@.with_sample((HealthSample { at, ok, latency_ms })),
    {
        self.health_history.push(HealthSample { at, ok, latency_ms });
        let count: usize = self.health_history.len();
        if count > HEALTH_HISTORY_LIMIT {
            let overflow: usize = count - HEALTH_HISTORY_LIMIT;
            let kept = self.health_history.split_off(overflow);
            self.health_history = kept;
        }
        assert(self@ =~= old(self)@.with_sample((HealthSample { at, ok, latency_ms })));
    }

    /// Escalating backoff so a flapping upstream is retried but does not stall every request.
    pub fn apply_cooldown(&mut self, base_seconds: u64, now: Moment)
        requires
            old(self)@.can_cool(base_seconds as nat, now),
        ensures
            final(self)@ == old(self)@.with_cooldown(base_seconds as nat, now),
    {
        if base_seconds == 0 || self.consecutive_failures < 2 {
            self.cooldown_until = None;
            return;
        }
        let steps: u32 = self.consecutive_failures - 2;
        let mut seconds: u64 = base_seconds;
        let mut done: u32 = 0;
        proof {
            vstd::arithmetic::power2::lemma2_to64();
            assert(base_seconds * vstd::arithmetic::power2::pow2(0) == base_seconds) by (nonlinear_arith)
                requires
                    vstd::arithmetic::power2::pow2(0) == 1,
            ;
        }
        while done < steps && seconds <= LONGEST_COOLDOWN_SECONDS
            invariant
                done <= steps,
                base_seconds > 0,
                seconds == base_seconds * vstd::arithmetic::power2::pow2(done as nat),
            decreases steps - done,
        {
            proof {
                lemma_one_doubling(base_seconds as nat, done as nat);
            }
            seconds = seconds * 2;
            done = done + 1;
        }
        proof {
            lemma_doublings_grow(base_seconds as nat, done as nat, steps as nat);
        }
        if seconds > LONGEST_COOLDOWN_SECONDS {
            seconds = LONGEST_COOLDOWN_SECONDS;
        }
        let seconds: u32 = seconds as u32;
        self.cooldown_until = Some(crate::clock::add_seconds(now, seconds));
    }

    /// Forgets the failures in a row and the pause.
    pub fn clear_cooldown(&mut self)
        ensures
            final(self)@ == old(self)@.without_cooldown(),
    {
        self.consecutive_failures = 0;
        self.cooldown_until = None;
    }
}

/// One probe of an upstream.
#[derive(Clone, Copy, Debug)]
pub struct HealthSample {
    pub at: Moment,
    pub ok: bool,
    pub latency_ms: Option<u64>,
}

/// What the last probe said.
#[derive(Clone, Copy, Debug, PartialEq, Eq, Structural)]
pub enum ProviderStatus {
    Unknown,
    Checking,
    Healthy,
    Unhealthy,
}

/// How the gateway orders candidates for each incoming request.
#[derive(Clone, Copy, Debug, PartialEq, Eq, Structural)]
pub enum RouteStrategy {
    /// Strict priority order, lowest number first.
    Priority,
    /// Lowest measured probe latency first.
    Fastest,
    /// Each request starts at the next ready candidate.
    RoundRobin,
}

impl Default for RouteStrategy {
    fn default() -> (r: Self)
        ensures
            r == RouteStrategy::Priority,
    {
        RouteStrategy::Priority
    }
}

// -------------------------------------------------------------------------------- settings
/// What the user fills in for a provider.
#[derive(Clone, Debug)]
pub struct ProviderInput {
    pub id: Option<String>,
    pub name: String,
    pub base_url: String,
    pub api_key: Option<String>,
    pub model: Option<String>,
    pub model_override: Option<String>,
    pub enabled: bool,
    pub priority: u32,
}

/// The settings of the application.
#[derive(Debug)]
pub struct AppSettings {
    pub gateway_port: u16,
    /// Total budget for health probes and key verification.
    pub request_timeout_seconds: u64,
    /// TCP connect budget for every upstream call.
    pub connect_timeout_seconds: u64,
    /// Maximum gap between two chunks of a proxied (possibly streaming) response.
    pub stream_idle_timeout_seconds: u64,
    pub health_interval_minutes: u64,
    pub automatic_health_checks: bool,
    pub auto_start_gateway: bool,
    /// Reuse pooled TCP connections and send TCP keepalive probes to upstreams.
    pub upstream_keep_alive: bool,
    pub route_strategy: RouteStrategy,
    /// Upper bound on providers tried per request. 0 means "try every candidate".
    pub max_failover_attempts: u32,
    /// Base cooldown applied after repeated upstream failures, doubling per failure.
    pub cooldown_seconds: u64,
    /// Treat 401/402/403/404 as a reason to switch upstream, not just 429/5xx.
    pub failover_on_client_errors: bool,
    /// Rewrite the request `model` when the target upstream does not expose it.
    pub remap_model: bool,
    /// Keep providers that failed their last probe out of the primary rotation.
    pub skip_unhealthy: bool,
    pub local_access_key: String,
}

/// The settings of a fresh installation with this key for local access.
pub open spec fn default_settings(key: String) -> AppSettings {
    AppSettings {
        gateway_port: 1455,
        request_timeout_seconds: 30,
        connect_timeout_seconds: 10,
        stream_idle_timeout_seconds: 120,
        health_interval_minutes: 5,
        automatic_health_checks: true,
        auto_start_gateway: true,
        upstream_keep_alive: true,
        route_strategy: RouteStrategy::Priority,
        max_failover_attempts: 3,
        cooldown_seconds: 60,
        failover_on_client_errors: true,
        remap_model: true,
        skip_unhealthy: true,
        local_access_key: key,
    }
}

impl Default for AppSettings {
    fn default() -> (settings: Self)
        ensures
            settings == default_settings(settings.local_access_key),
            crate::ids::is_access_key(settings.local_access_key@),
    {
        AppSettings {
            gateway_port: 1455,
            request_timeout_seconds: 30,
            connect_timeout_seconds: 10,
            stream_idle_timeout_seconds: 120,
            health_interval_minutes: 5,
            automatic_health_checks: true,
            auto_start_gateway: true,
            upstream_keep_alive: true,
            route_strategy: RouteStrategy::Priority,
            max_failover_attempts: 3,
            cooldown_seconds: 60,
            failover_on_client_errors: true,
            remap_model: true,
            skip_unhealthy: true,
            local_access_key: crate::ids::fresh_access_key(),
        }
    }
}

impl Clone for AppSettings {
    fn clone(&self) -> (copy: Self)
        ensures
            copy == *self,
    {
        AppSettings {
            gateway_port: self.gateway_port,
            request_timeout_seconds: self.request_timeout_seconds,
            connect_timeout_seconds: self.connect_timeout_seconds,
            stream_idle_timeout_seconds: self.stream_idle_timeout_seconds,
            health_interval_minutes: self.health_interval_minutes,
            automatic_health_checks: self.automatic_health_checks,
            auto_start_gateway: self.auto_start_gateway,
            upstream_keep_alive: self.upstream_keep_alive,
            route_strategy: self.route_strategy,
            max_failover_attempts: self.max_failover_attempts,
            cooldown_seconds: self.cooldown_seconds,
            failover_on_client_errors: self.failover_on_client_errors,
            remap_model: self.remap_model,
            skip_unhealthy: self.skip_unhealthy,
            local_access_key: self.local_access_key.clone(),
        }
    }
}

// --------------------------------------------------------------------------- configuration
/// All that is stored between runs.
#[derive(Debug)]
pub struct AppConfig {
    pub providers: Vec<Provider>,
    pub settings: AppSettings,
}

/// What the configuration holds.
pub struct AppConfigView {
    pub providers: Seq<ProviderView>,
    pub settings: AppSettings,
}

impl View for AppConfig {
    type V = AppConfigView;

    open spec fn view(&self) -> AppConfigView {
        AppConfigView { providers: self.providers.deep_view(), settings: self.settings }
    }
}

/// The providers that could serve traffic at all, in the order of the configuration.
pub open spec fn routable_of(providers: Seq<ProviderView>) -> Seq<ProviderView> {
    providers.filter(|p: ProviderView| p.is_routable())
}

impl AppConfig {
    /// Providers that could serve traffic at all, cheapest checks first.
    pub fn routable(&self) -> (routable: Vec<&Provider>)
        ensures
            routable.deep_view() == routable_of(self@.providers),
    {
        let ghost keep = |p: ProviderView| p.is_routable();
        let ghost all = self@.providers;
        let mut routable: Vec<&Provider> = Vec::new();
        let mut i: usize = 0;
        proof {
            reveal(Seq::filter);
            assert(all.take(0) =~= Seq::<ProviderView>::empty());
            assert(routable.deep_view() =~= all.take(0).filter(keep));
        }
        while i < self.providers.len()
            invariant
                all == self.providers.deep_view(),
                keep == (|p: ProviderView| p.is_routable()),
                i <= self.providers@.len(),
                routable.deep_view() == all.take(i as int).filter(keep),
            decreases self.providers@.len() - i,
        {
            let ghost before = routable.deep_view();
            proof {
                assert(all.take(i + 1) =~= all.take(i as int).push(all[i as int]));
                crate::order::lemma_filter_push(all.take(i as int), keep, all[i as int]);
            }
            if self.providers[i].routes() {
                routable.push(&self.providers[i]);
                assert(routable.deep_view() =~= before.push(all[i as int]));
            }
            i = i + 1;
        }
        assert(all.take(i as int) =~= all);
        routable
    }
}

/// A copy of every provider in a list.
pub fn copied_providers(list: &Vec<Provider>) -> (copy: Vec<Provider>)
    ensures
        copy.deep_view() == list.deep_view(),
{
    let mut copy: Vec<Provider> = Vec::new();
    let mut i: usize = 0;
    while i < list.len()
        invariant
            i <= list@.len(),
            copy.deep_view() == list.deep_view().take(i as int),
        decreases list@.len() - i,
    {
        let ghost before = copy.deep_view();
        copy.push(list[i].clone());
        i = i + 1;
        proof {
            assert(copy.deep_view() =~= before.push(list.deep_view()[i - 1]));
            assert(list.deep_view().take(i as int) =~= list.deep_view().take(i - 1).push(list.deep_view()[i - 1]));
        }
    }
    assert(list.deep_view().take(i as int) =~= list.deep_view());
    copy
}

impl Clone for AppConfig {
    fn clone(&self) -> (copy: Self)
        ensures
            copy@ == self@,
    {
        AppConfig { providers: copied_providers(&self.providers), settings: self.settings.clone() }
    }
}

impl Default for AppConfig {
    fn default() -> (config: Self)
        ensures
            config@.providers == Seq::<ProviderView>::empty(),
            config.settings == default_settings(config.settings.local_access_key),
            crate::ids::is_access_key(config.settings.local_access_key@),
    {
        let config = AppConfig { providers: Vec::new(), settings: AppSettings::default() };
        assert(config@.providers =~= Seq::<ProviderView>::empty());
        config
    }
}

// --------------------------------------------------------------------------------- reports
/// The gateway as the dashboard shows it.
#[derive(Clone, Debug)]
pub struct GatewayStatus {
    pub running: bool,
    pub host: String,
    pub port: u16,
    pub request_count: u64,
    pub success_count: u64,
    pub failed_count: u64,
    pub failover_count: u64,
    pub active_connections: u64,
    pub average_latency_ms: u64,
    pub input_bytes: u64,
    pub output_bytes: u64,
    pub uptime_seconds: u64,
    pub strategy: RouteStrategy,
    pub routable_count: usize,
    pub cooldown_count: usize,
}

/// One request that passed through the gateway.
#[derive(Debug)]
pub struct RequestLog {
    pub id: String,
    pub timestamp: Moment,
    pub method: String,
    pub path: String,
    pub provider_name: String,
    pub status_code: u16,
    pub latency_ms: u64,
    pub attempts: usize,
    pub requested_model: Option<String>,
    pub upstream_model: Option<String>,
    pub error: Option<String>,
}

/// What a log entry holds.
pub struct RequestLogView {
    pub id: Seq<char>,
    pub timestamp: Moment,
    pub method: Seq<char>,
    pub path: Seq<char>,
    pub provider_name: Seq<char>,
    pub status_code: u16,
    pub latency_ms: u64,
    pub attempts: usize,
    pub requested_model: Option<Seq<char>>,
    pub upstream_model: Option<Seq<char>>,
    pub error: Option<Seq<char>>,
}

impl View for RequestLog {
    type V = RequestLogView;

    open spec fn view(&self) -> RequestLogView {
        RequestLogView {
            id: self.id@,
            timestamp: self.timestamp,
            method: self.method@,
            path: self.path@,
            provider_name: self.provider_name@,
            status_code: self.status_code,
            latency_ms: self.latency_ms,
            attempts: self.attempts,
            requested_model: self.requested_model.deep_view(),
            upstream_model: self.upstream_model.deep_view(),
            error: self.error.deep_view(),
        }
    }
}

impl Clone for RequestLog {
    fn clone(&self) -> (copy: Self)
        ensures
            copy == *self,
    {
        RequestLog {
            id: self.id.clone(),
            timestamp: self.timestamp,
            method: self.method.clone(),
            path: self.path.clone(),
            provider_name: self.provider_name.clone(),
            status_code: self.status_code,
            latency_ms: self.latency_ms,
            attempts: self.attempts,
            requested_model: text::copied(&self.requested_model),
            upstream_model: text::copied(&self.upstream_model),
            error: text::copied(&self.error),
        }
    }
}

/// Everything that the dashboard shows at once.
#[derive(Clone, Debug)]
pub struct AppSnapshot {
    pub providers: Vec<Provider>,
    pub gateway: GatewayStatus,
    pub logs: Vec<RequestLog>,
    pub settings: AppSettings,
    pub codex: CodexStatus,
}

/// How Codex is configured.
#[derive(Clone, Debug)]
pub struct CodexStatus {
    pub configured: bool,
    pub config_path: String,
    pub active_model: Option<String>,
    pub active_provider: Option<String>,
    /// Port currently written into the Codex provider block.
    pub configured_port: Option<u16>,
    /// True when Codex points at RelayDeck but with a stale port, so a re-apply is needed.
    pub stale: bool,
}

impl Default for CodexStatus {
    fn default() -> (status: Self)
        ensures
            !status.configured,
            status.config_path@ == Seq::<char>::empty(),
            status.active_model is None,
            status.active_provider is None,
            status.configured_port is None,
            !status.stale,
    {
        CodexStatus {
            configured: false,
            config_path: String::new(),
            active_model: None,
            active_provider: None,
            configured_port: None,
            stale: false,
        }
    }
}

/// What applying the Codex configuration did.
#[derive(Clone, Debug)]
pub struct CodexApplyResult {
    pub config_path: String,
    pub backup_path: Option<String>,
    pub model: String,
    pub provider_name: String,
    /// Historical threads re-pointed at the relaydeck provider so Codex keeps listing them.
    pub aligned_sessions: usize,
}

/// The application that was restarted.
#[derive(Clone, Debug)]
pub struct CodexRestartResult {
    pub app_name: String,
    pub version: Option<String>,
    pub installed_at: Option<String>,
}

/// Both of the above.
#[derive(Clone, Debug)]
pub struct CodexApplyAndRestartResult {
    pub apply: CodexApplyResult,
    pub restart: CodexRestartResult,
}

// -------------------------------------------------------------------------------- sessions
/// One Codex conversation, reconstructed from its rollout file plus `session_index.jsonl`.
#[derive(Debug)]
pub struct CodexSession {
    pub id: String,
    pub title: String,
    pub path: String,
    pub cwd: Option<String>,
    pub originator: Option<String>,
    pub cli_version: Option<String>,
    pub model_provider: Option<String>,
    pub thread_source: Option<String>,
    pub agent_nickname: Option<String>,
    pub forked_from_id: Option<String>,
    pub created_at: Option<Moment>,
    pub updated_at: Option<Moment>,
    pub size_bytes: u64,
    /// Listed in `session_index.jsonl`, which is what makes it resumable from Codex.
    pub indexed: bool,
    /// Moved into RelayDeck's archive folder, hidden from Codex but recoverable.
    pub archived: bool,
    /// Routed through the RelayDeck gateway.
    pub via_relaydeck: bool,
    /// Spawned by another thread rather than started by the user.
    pub subagent: bool,
}

/// What a session holds.
pub struct CodexSessionView {
    pub id: Seq<char>,
    pub title: Seq<char>,
    pub path: Seq<char>,
    pub cwd: Option<Seq<char>>,
    pub originator: Option<Seq<char>>,
    pub cli_version: Option<Seq<char>>,
    pub model_provider: Option<Seq<char>>,
    pub thread_source: Option<Seq<char>>,
    pub agent_nickname: Option<Seq<char>>,
    pub forked_from_id: Option<Seq<char>>,
    pub created_at: Option<Moment>,
    pub updated_at: Option<Moment>,
    pub size_bytes: u64,
    pub indexed: bool,
    pub archived: bool,
    pub via_relaydeck: bool,
    pub subagent: bool,
}

impl View for CodexSession {
    type V = CodexSessionView;

    open spec fn view(&self) -> CodexSessionView {
        CodexSessionView {
            id: self.id@,
            title: self.title@,
            path: self.path@,
            cwd: self.cwd.deep_view(),
            originator: self.originator.deep_view(),
            cli_version: self.cli_version.deep_view(),
            model_provider: self.model_provider.deep_view(),
            thread_source: self.thread_source.deep_view(),
            agent_nickname: self.agent_nickname.deep_view(),
            forked_from_id: self.forked_from_id.deep_view(),
            created_at: self.created_at,
            updated_at: self.updated_at,
            size_bytes: self.size_bytes,
            indexed: self.indexed,
            archived: self.archived,
            via_relaydeck: self.via_relaydeck,
            subagent: self.subagent,
        }
    }
}

impl DeepView for CodexSession {
    type V = CodexSessionView;

    open spec fn deep_view(&self) -> CodexSessionView {
        self@
    }
}

impl Clone for CodexSession {
    fn clone(&self) -> (copy: Self)
        ensures
            copy == *self,
    {
        CodexSession {
            id: self.id.clone(),
            title: self.title.clone(),
            path: self.path.clone(),
            cwd: text::copied(&self.cwd),
            originator: text::copied(&self.originator),
            cli_version: text::copied(&self.cli_version),
            model_provider: text::copied(&self.model_provider),
            thread_source: text::copied(&self.thread_source),
            agent_nickname: text::copied(&self.agent_nickname),
            forked_from_id: text::copied(&self.forked_from_id),
            created_at: self.created_at,
            updated_at: self.updated_at,
            size_bytes: self.size_bytes,
            indexed: self.indexed,
            archived: self.archived,
            via_relaydeck: self.via_relaydeck,
            subagent: self.subagent,
        }
    }
}

impl Default for CodexSession {
    fn default() -> (session: Self)
        ensures
            session@ == (CodexSessionView {
                id: Seq::empty(),
                title: Seq::empty(),
                path: Seq::empty(),
                cwd: None,
                originator: None,
                cli_version: None,
                model_provider: None,
                thread_source: None,
                agent_nickname: None,
                forked_from_id: None,
                created_at: None,
                updated_at: None,
                size_bytes: 0,
                indexed: false,
                archived: false,
                via_relaydeck: false,
                subagent: false,
            }),
    {
        let session = CodexSession {
            id: String::new(),
            title: String::new(),
            path: String::new(),
            cwd: None,
            originator: None,
            cli_version: None,
            model_provider: None,
            thread_source: None,
            agent_nickname: None,
            forked_from_id: None,
            created_at: None,
            updated_at: None,
            size_bytes: 0,
            indexed: false,
            archived: false,
            via_relaydeck: false,
            subagent: false,
        };
        assert(session@.id =~= Seq::empty());
        assert(session@.title =~= Seq::empty());
        assert(session@.path =~= Seq::empty());
        session
    }
}

/// All Codex sessions at one point in time.
#[derive(Clone, Debug)]
pub struct SessionOverview {
    pub sessions: Vec<CodexSession>,
    pub sessions_dir: String,
    pub archive_dir: String,
    pub total_bytes: u64,
    pub archived_bytes: u64,
    pub indexed_count: usize,
    /// Rollout files Codex cannot resume because they are missing from the index.
    pub orphan_count: usize,
    pub archived_count: usize,
    /// Index entries whose rollout file no longer exists.
    pub ghost_count: usize,
    /// The `model_provider` Codex is currently configured to use.
    pub active_provider: Option<String>,
    /// User threads whose provider differs from the active one; Codex Desktop hides them.
    pub provider_mismatch_count: usize,
    pub scanned_at: Moment,
}

impl Default for SessionOverview {
    fn default() -> (snapshot: Self)
        ensures
            snapshot.sessions@ == Seq::<CodexSession>::empty(),
            snapshot.sessions_dir@ == Seq::<char>::empty(),
            snapshot.archive_dir@ == Seq::<char>::empty(),
            snapshot.total_bytes == 0,
            snapshot.archived_bytes == 0,
            snapshot.indexed_count == 0,
            snapshot.orphan_count == 0,
            snapshot.archived_count == 0,
            snapshot.ghost_count == 0,
            snapshot.active_provider is None,
            snapshot.provider_mismatch_count == 0,
            snapshot.scanned_at == (Moment { seconds: 0, nanos: 0 }),
    {
        SessionOverview {
            sessions: Vec::new(),
            sessions_dir: String::new(),
            archive_dir: String::new(),
            total_bytes: 0,
            archived_bytes: 0,
            indexed_count: 0,
            orphan_count: 0,
            archived_count: 0,
            ghost_count: 0,
            active_provider: None,
            provider_mismatch_count: 0,
            scanned_at: Moment { seconds: 0, nanos: 0 },
        }
    }
}

/// What a repair did.
#[derive(Clone, Debug)]
pub struct SessionRepairResult {
    pub restored: usize,
    pub removed_ghosts: usize,
    pub backup_path: Option<String>,
    /// Threads whose `model_provider` was re-pointed at the active provider.
    pub aligned_threads: usize,
    pub db_backup_path: Option<String>,
}

impl Default for SessionRepairResult {
    fn default() -> (result: Self)
        ensures
            result.restored == 0,
            result.removed_ghosts == 0,
            result.backup_path is None,
            result.aligned_threads == 0,
            result.db_backup_path is None,
    {
        SessionRepairResult {
            restored: 0,
            removed_ghosts: 0,
            backup_path: None,
            aligned_threads: 0,
            db_backup_path: None,
        }
    }
}

// ------------------------------------------------------------------------------------ laws
/// However often a provider is probed, no more than the limit of samples is kept, and the last one
/// is always among them.
pub proof fn law_history_stays_bounded(p: ProviderView, sample: HealthSample)
    ensures
        p.with_sample(sample).health_history.len() <= HEALTH_HISTORY_LIMIT,
        p.with_sample(sample).health_history.last() == sample,
        p.health_history.len() < HEALTH_HISTORY_LIMIT ==> p.with_sample(sample).health_history
            == p.health_history.push(sample),
{
}

/// A pause that is earned lasts at least a second and at most a quarter of an hour; it is the base
/// itself at the second failure in a row, where that is within the limit.
pub proof fn law_cooldown_is_bounded(base: nat, failures: nat)
    requires
        earns_cooldown(base, failures),
    ensures
        1 <= backoff_seconds(base, failures) <= LONGEST_COOLDOWN_SECONDS,
        base <= LONGEST_COOLDOWN_SECONDS ==> backoff_seconds(base, failures) >= base,
        base <= LONGEST_COOLDOWN_SECONDS ==> backoff_seconds(base, 2) == base,
{
    vstd::arithmetic::power2::lemma2_to64();
    let unit = vstd::arithmetic::power2::pow2(0);
    assert(base * unit == base) by (nonlinear_arith)
        requires
            unit == 1,
    ;
    lemma_doublings_grow(base, 0, (failures - 2) as nat);
}

/// Every further failure doubles the pause, up to the limit, where it stays; the limit is reached at
/// the twelfth failure in a row at the latest.
pub proof fn law_cooldown_doubles(base: nat, failures: nat)
    requires
        earns_cooldown(base, failures),
    ensures
        2 * backoff_seconds(base, failures) <= LONGEST_COOLDOWN_SECONDS ==> backoff_seconds(base, failures + 1) == 2
            * backoff_seconds(base, failures),
        2 * backoff_seconds(base, failures) > LONGEST_COOLDOWN_SECONDS ==> backoff_seconds(base, failures + 1)
            == LONGEST_COOLDOWN_SECONDS,
        failures >= 12 ==> backoff_seconds(base, failures) == LONGEST_COOLDOWN_SECONDS,
{
    let doublings = (failures - 2) as nat;
    lemma_one_doubling(base, doublings);
    if failures >= 12 {
        vstd::arithmetic::power2::lemma2_to64();
        lemma_doublings_grow(base, 10, doublings);
        let factor = vstd::arithmetic::power2::pow2(10);
        assert(base * factor >= 1024) by (nonlinear_arith)
            requires
                base >= 1,
                factor == 1024,
        ;
    }
}

/// A provider is paused right after its second failure in a row and any later one, and not after the
/// first, nor where pauses are switched off; and clearing the pause ends it at once.
pub proof fn law_cooldown_begins_with_the_second_failure(p: ProviderView, base: nat, now: Moment, later: Moment)
    requires
        p.can_cool(base, now),
    ensures
        p.with_cooldown(base, now).in_cooldown(now) <==> base > 0 && p.consecutive_failures >= 2,
        !p.with_cooldown(base, now).without_cooldown().in_cooldown(later),
{
    if earns_cooldown(base, p.consecutive_failures as nat) {
        law_cooldown_is_bounded(base, p.consecutive_failures as nat);
    }
}

/// A stream may stay silent for longer than a probe may take, and connections are kept alive,
/// unless the user decides otherwise.
pub proof fn law_defaults_keep_streams_alive(key: String)
    ensures
        default_settings(key).stream_idle_timeout_seconds > default_settings(key).request_timeout_seconds,
        default_settings(key).upstream_keep_alive,
{
}

/// A provider is paused at a point in time exactly where its pause ends at a later one, by the seconds and
/// then by the nanoseconds.
pub proof fn law_pauses_end_at_their_time(p: ProviderView, now: Moment)
    ensures
        p.in_cooldown(now) <==> (p.cooldown_until matches Some(until) && (until.seconds > now.seconds || (until.seconds
            == now.seconds && until.nanos > now.nanos))),
{
}

/// The pause that failures in a row earn: none before the second one or where pauses are switched off;
/// else it ends as many seconds later as the base says at the second failure, twice that at the third, and
/// so on with each, but never more than nine hundred. Nothing else of the provider changes.
pub proof fn law_pauses_in_seconds(p: ProviderView, base: nat, now: Moment)
    requires
        p.can_cool(base, now),
    ensures
        ({
            let after = p.with_cooldown(base, now);
            &&& after.cooldown_until is Some <==> base > 0 && p.consecutive_failures >= 2
            &&& after.cooldown_until matches Some(until) ==> {
                let grown = base * vstd::arithmetic::power2::pow2((p.consecutive_failures - 2) as nat);
                until.seconds == now.seconds + if grown < 900 {
                    grown as int
                } else {
                    900
                }
            }
            &&& after == (ProviderView { cooldown_until: after.cooldown_until, ..p })
            &&& p.without_cooldown() == (ProviderView { consecutive_failures: 0, cooldown_until: None, ..p })
        }),
{
}

/// A pin that is not blank is the model that is asked for, without the white space around it; where there is
/// none, it is the model that was discovered.
pub proof fn law_pins_decide_the_model(p: ProviderView)
    ensures
        p.model_override is None ==> p.effective_model() == p.model,
        p.model_override matches Some(pin) ==> if exists|i: int| 0 <= i < pin.len() && !text::is_white(#[trigger] pin[i]) {
            p.effective_model() == text::trimmed(pin)
        } else {
            p.effective_model() == p.model
        },
{
    if let Some(pin) = p.model_override {
        text::law_trimming_drops_the_white_ends(pin);
    }
}

/// A provider knows a model exactly where one of those that it listed is the same in letters of any case.
pub proof fn law_known_models_are_listed(p: ProviderView, model: Seq<char>)
    ensures
        p.knows_model(model) <==> exists|i: int|
            0 <= i < p.available_models.len() && text::same_letters(#[trigger] p.available_models[i], model),
{
}

/// Traffic goes to a provider only where it is switched on and has a key.
pub proof fn law_routable_providers_are_enabled_with_a_key(providers: Seq<ProviderView>, p: ProviderView)
    ensures
        p.is_routable() <==> p.enabled && p.api_key is Some,
        routable_of(providers).contains(p) <==> providers.contains(p) && p.enabled && p.api_key is Some,
{
    let keep = |q: ProviderView| q.is_routable();
    crate::order::lemma_filter_members(providers, keep);
    if routable_of(providers).contains(p) {
        let k = choose|k: int| 0 <= k < routable_of(providers).len() && routable_of(providers)[k] == p;
        assert(keep(routable_of(providers)[k]));
    }
    if providers.contains(p) && p.is_routable() {
        let k = choose|k: int| 0 <= k < providers.len() && providers[k] == p;
        assert(keep(providers[k]));
    }
}

/// The samples of a provider are its newest probes in the order in which they were made, the last one at
/// the end; twenty are kept, and only the oldest ones give way.
pub proof fn law_history_keeps_the_newest(p: ProviderView, sample: HealthSample)
    ensures
        ({
            let after = p.with_sample(sample);
            let all = p.health_history.push(sample);
            let gone = if all.len() > 20 {
                all.len() - 20
            } else {
                0
            };
            &&& after.health_history.len() == all.len() - gone
            &&& forall|i: int|
                0 <= i < after.health_history.len() ==> #[trigger] after.health_history[i] == all[i + gone]
            &&& after == (ProviderView { health_history: after.health_history, ..p })
        }),
{
}

/// A fresh installation listens on port 1455, tries providers by priority and at most three of them for a
/// request, pauses one for a minute at first, and checks all of them every five minutes.
pub proof fn law_fresh_settings(key: String)
    ensures
        ({
            let s = default_settings(key);
            &&& s.gateway_port == 1455 && s.local_access_key == key
            &&& s.request_timeout_seconds == 30 && s.connect_timeout_seconds == 10 && s.stream_idle_timeout_seconds == 120
            &&& s.health_interval_minutes == 5 && s.automatic_health_checks && s.auto_start_gateway && s.upstream_keep_alive
            &&& s.route_strategy == RouteStrategy::Priority && s.max_failover_attempts == 3 && s.cooldown_seconds == 60
            &&& s.failover_on_client_errors && s.remap_model && s.skip_unhealthy
        }),
{
}

} // verus!

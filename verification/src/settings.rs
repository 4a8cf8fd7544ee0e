//! The rules for the settings, and what follows from them for the connections to upstreams.

use crate::models::AppSettings;
use crate::text;
use vstd::prelude::*;

verus! {

/// What is wrong with the settings, if anything is.
pub open spec fn settings_problem(s: AppSettings) -> Option<Seq<char>> {
    if !(1024 <= s.gateway_port <= 65535) {
        Some("端口必须在 1024 到 65535 之间"@)
    } else if !(10 <= s.request_timeout_seconds <= 600) {
        Some("测活超时必须在 10 到 600 秒之间"@)
    } else if !(1 <= s.connect_timeout_seconds <= 120) {
        Some("连接超时必须在 1 到 120 秒之间"@)
    } else if !(10 <= s.stream_idle_timeout_seconds <= 3600) {
        Some("流空闲超时必须在 10 到 3600 秒之间"@)
    } else if !(1 <= s.health_interval_minutes <= 120) {
        Some("保活间隔必须在 1 到 120 分钟之间"@)
    } else if s.max_failover_attempts > 20 {
        Some("最大切换次数不能超过 20"@)
    } else if s.cooldown_seconds > 900 {
        Some("冷却时间不能超过 900 秒"@)
    } else if text::is_blank(s.local_access_key@) {
        Some("本地访问密钥不能为空"@)
    } else {
        None
    }
}

/// Accepts settings within their ranges, with the key for local access trimmed; refuses any others.
pub fn validate_settings(settings: AppSettings) -> (r: Result<AppSettings, String>)
    ensures
        r is Ok <==> settings_problem(settings) is None,
        r matches Ok(accepted) ==> {
            &&& accepted == (AppSettings { local_access_key: accepted.local_access_key, ..settings })
            &&& accepted.local_access_key@ == text::trimmed(settings.local_access_key@)
        },
        r matches Err(message) ==> settings_problem(settings) == Some(message@),
{
    if !(1024 <= settings.gateway_port) {
        return Err("端口必须在 1024 到 65535 之间".to_owned());
    }
    if !(10 <= settings.request_timeout_seconds && settings.request_timeout_seconds <= 600) {
        return Err("测活超时必须在 10 到 600 秒之间".to_owned());
    }
    if !(1 <= settings.connect_timeout_seconds && settings.connect_timeout_seconds <= 120) {
        return Err("连接超时必须在 1 到 120 秒之间".to_owned());
    }
    if !(10 <= settings.stream_idle_timeout_seconds && settings.stream_idle_timeout_seconds <= 3600) {
        return Err("流空闲超时必须在 10 到 3600 秒之间".to_owned());
    }
    if !(1 <= settings.health_interval_minutes && settings.health_interval_minutes <= 120) {
        return Err("保活间隔必须在 1 到 120 分钟之间".to_owned());
    }
    if settings.max_failover_attempts > 20 {
        return Err("最大切换次数不能超过 20".to_owned());
    }
    if settings.cooldown_seconds > 900 {
        return Err("冷却时间不能超过 900 秒".to_owned());
    }
    let key = text::trim(settings.local_access_key.as_str()).to_owned();
    if key.as_str().is_empty() {
        return Err("本地访问密钥不能为空".to_owned());
    }
    let mut accepted = settings;
    accepted.local_access_key = key;
    Ok(accepted)
}

/// Replaces the key for local access by a new one.
pub fn reset_access_key(settings: &mut AppSettings)
    ensures
        *final(settings) == (AppSettings { local_access_key: final(settings).local_access_key, ..*old(settings) }),
        crate::ids::is_access_key(final(settings).local_access_key@),
{
    settings.local_access_key = crate::ids::fresh_access_key();
}

/// Whether a running gateway has to be started anew for new settings: it listens on one port.
pub fn needs_restart(running: bool, previous_port: u16, settings: &AppSettings) -> (r: bool)
    ensures
        r == (running && previous_port != settings.gateway_port),
{
    running && previous_port != settings.gateway_port
}

/// What is said of a gateway that cannot listen on its port.
pub fn listen_failure(port: u16, reason: &str) -> (message: String)
    ensures
        message@ == "端口 "@ + text::decimal(port as nat) + " 无法监听: "@ + reason@,
{
    let number = text::decimal_text(port as u64);
    let mut message = text::cat3("端口 ", number.as_str(), " 无法监听: ");
    message.append(reason);
    message
}

// ----------------------------------------------------------------------------- connections
/// How long an idle connection lives, and how many there may be for one upstream.
#[derive(Clone, Copy, Debug)]
pub struct ConnectionPlan {
    /// The time to set up a connection.
    pub connect_seconds: u64,
    /// How often a silent connection is probed, if it is.
    pub keepalive_seconds: Option<u64>,
    /// How many idle connections are kept for one upstream.
    pub idle_connections: usize,
    /// For how long they are kept, where that is not left to the HTTP client.
    pub idle_seconds: Option<u64>,
    /// The time for a whole request, if it is limited.
    pub total_seconds: Option<u64>,
    /// The time between two parts of a response, if it is limited.
    pub read_seconds: Option<u64>,
}

/// `value`, or the nearest number of seconds between the limits.
pub open spec fn within(value: u64, low: u64, high: u64) -> u64 {
    if value < low {
        low
    } else if value > high {
        high
    } else {
        value
    }
}

fn clamped(value: u64, low: u64, high: u64) -> (r: u64)
    requires
        low <= high,
    ensures
        r == within(value, low, high),
{
    if value < low {
        low
    } else if value > high {
        high
    } else {
        value
    }
}

/// What all connections have in common.
pub open spec fn common_plan(s: AppSettings) -> ConnectionPlan {
    ConnectionPlan {
        connect_seconds: within(s.connect_timeout_seconds, 1, 120),
        keepalive_seconds: if s.upstream_keep_alive {
            Some(30)
        } else {
            None
        },
        idle_connections: if s.upstream_keep_alive {
            8
        } else {
            0
        },
        idle_seconds: if s.upstream_keep_alive {
            Some(300)
        } else {
            None
        },
        total_seconds: None,
        read_seconds: None,
    }
}

/// Shared connection behaviour: pooled, keep-alive sockets so a switch between upstreams
/// does not pay a fresh TLS handshake every time.
pub fn base_client(settings: &AppSettings) -> (plan: ConnectionPlan)
    ensures
        plan == common_plan(*settings),
{
    let connect_seconds: u64 = clamped(settings.connect_timeout_seconds, 1, 120);
    if settings.upstream_keep_alive {
        ConnectionPlan {
            connect_seconds,
            keepalive_seconds: Some(30),
            idle_connections: 8,
            idle_seconds: Some(300),
            total_seconds: None,
            read_seconds: None,
        }
    } else {
        ConnectionPlan {
            connect_seconds,
            keepalive_seconds: None,
            idle_connections: 0,
            idle_seconds: None,
            total_seconds: None,
            read_seconds: None,
        }
    }
}

/// Connections for probes: a probe as a whole has to be over in time.
pub fn build_probe_client(settings: &AppSettings) -> (plan: ConnectionPlan)
    ensures
        plan == (ConnectionPlan {
            total_seconds: Some(within(settings.request_timeout_seconds, 5, 600)),
            ..common_plan(*settings)
        }),
{
    let mut plan = base_client(settings);
    plan.total_seconds = Some(clamped(settings.request_timeout_seconds, 5, 600));
    plan
}

/// Connections for traffic. Deliberately no total timeout: a long Codex turn must not be cut off
/// mid-stream. Dead upstreams are caught by the connect and per-read budgets instead.
pub fn build_proxy_client(settings: &AppSettings) -> (plan: ConnectionPlan)
    ensures
        plan == (ConnectionPlan {
            read_seconds: Some(within(settings.stream_idle_timeout_seconds, 10, 3600)),
            ..common_plan(*settings)
        }),
{
    let mut plan = base_client(settings);
    plan.read_seconds = Some(clamped(settings.stream_idle_timeout_seconds, 10, 3600));
    plan
}

// ------------------------------------------------------------------------------------ laws
/// What validation accepts is valid, and validating it once more changes nothing.
pub proof fn law_accepted_settings_stay_accepted(settings: AppSettings, accepted: AppSettings)
    requires
        settings_problem(settings) is None,
        accepted == (AppSettings { local_access_key: accepted.local_access_key, ..settings }),
        accepted.local_access_key@ == text::trimmed(settings.local_access_key@),
    ensures
        settings_problem(accepted) is None,
        text::trimmed(accepted.local_access_key@) == accepted.local_access_key@,
        accepted.local_access_key@.len() > 0,
{
    text::lemma_trimmed_stays(settings.local_access_key@);
}

/// Within valid settings nothing is bent: connections get the very limits that the user chose.
pub proof fn law_valid_limits_are_used_as_they_are(s: AppSettings)
    requires
        settings_problem(s) is None,
    ensures
        within(s.connect_timeout_seconds, 1, 120) == s.connect_timeout_seconds,
        within(s.request_timeout_seconds, 5, 600) == s.request_timeout_seconds,
        within(s.stream_idle_timeout_seconds, 10, 3600) == s.stream_idle_timeout_seconds,
        crate::health::wait_of(s.health_interval_minutes as nat, false) == s.health_interval_minutes * 60,
{
}

/// The settings of a fresh installation are valid.
pub proof fn law_default_settings_are_valid(key: String)
    requires
        crate::ids::is_access_key(key@),
    ensures
        settings_problem(crate::models::default_settings(key)) is None,
{
    reveal_strlit("rd_local_");
    let s = key@;
    assert("rd_local_"@ =~= s.subrange(0, 9));
    assert(s.subrange(0, 9)[0] == 'r');
    assert(s[0] == 'r');
    let f = text::any_white();
    assert(text::strip_start(s, f) == s);
    text::lemma_strip_end_keeps(s, f, 0);
}

/// Settings are accepted exactly where every figure is within its limits and the key is not blank; of those
/// that are not, the first one that is out of its limits is named.
pub proof fn law_settings_have_limits(s: AppSettings)
    ensures
        settings_problem(s) is None <==> {
            &&& s.gateway_port >= 1024
            &&& 10 <= s.request_timeout_seconds <= 600
            &&& 1 <= s.connect_timeout_seconds <= 120
            &&& 10 <= s.stream_idle_timeout_seconds <= 3600
            &&& 1 <= s.health_interval_minutes <= 120
            &&& s.max_failover_attempts <= 20
            &&& s.cooldown_seconds <= 900
            &&& exists|i: int| 0 <= i < s.local_access_key@.len() && !text::is_white(#[trigger] s.local_access_key@[i])
        },
        ({
            let port = s.gateway_port >= 1024;
            let probe = port && 10 <= s.request_timeout_seconds <= 600;
            let connect = probe && 1 <= s.connect_timeout_seconds <= 120;
            let idle = connect && 10 <= s.stream_idle_timeout_seconds <= 3600;
            let interval = idle && 1 <= s.health_interval_minutes <= 120;
            let attempts = interval && s.max_failover_attempts <= 20;
            let cooldown = attempts && s.cooldown_seconds <= 900;
            let problem = settings_problem(s);
            &&& !port ==> problem == Some("端口必须在 1024 到 65535 之间"@)
            &&& port && !probe ==> problem == Some("测活超时必须在 10 到 600 秒之间"@)
            &&& probe && !connect ==> problem == Some("连接超时必须在 1 到 120 秒之间"@)
            &&& connect && !idle ==> problem == Some("流空闲超时必须在 10 到 3600 秒之间"@)
            &&& idle && !interval ==> problem == Some("保活间隔必须在 1 到 120 分钟之间"@)
            &&& interval && !attempts ==> problem == Some("最大切换次数不能超过 20"@)
            &&& attempts && !cooldown ==> problem == Some("冷却时间不能超过 900 秒"@)
            &&& cooldown && problem is Some ==> problem == Some("本地访问密钥不能为空"@)
        }),
{
    text::law_trimming_drops_the_white_ends(s.local_access_key@);
}

/// Connections are kept where that is asked for: probed every half minute, eight of them for an upstream and
/// for five minutes; else none is kept. A limit outside its bounds is moved to the nearer one.
pub proof fn law_connections_are_kept_on_request(s: AppSettings, value: u64, low: u64, high: u64)
    requires
        low <= high,
    ensures
        ({
            let plan = common_plan(s);
            &&& s.upstream_keep_alive ==> plan.keepalive_seconds == Some(30u64) && plan.idle_connections == 8
                && plan.idle_seconds == Some(300u64)
            &&& !s.upstream_keep_alive ==> plan.keepalive_seconds is None && plan.idle_connections == 0
                && plan.idle_seconds is None
            &&& 1 <= plan.connect_seconds <= 120
            &&& 1 <= s.connect_timeout_seconds <= 120 ==> plan.connect_seconds == s.connect_timeout_seconds
            &&& plan.total_seconds is None && plan.read_seconds is None
        }),
        low <= within(value, low, high) <= high,
        low <= value <= high ==> within(value, low, high) == value,
        value < low ==> within(value, low, high) == low,
        value > high ==> within(value, low, high) == high,
{
}

} // verus!

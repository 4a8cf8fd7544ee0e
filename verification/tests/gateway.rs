use chrono::{Duration, Utc};
use relaydeck::clock::Moment;
use relaydeck::gateway::{
    align_model, authorized, error_response, forwards_header, is_hop_header, join_url, push_log, record_failure,
    record_success, requested_model, rewrite_model, should_failover, upstream_headers, Failure, MAX_LOGS,
};
use relaydeck::json::Json;
use relaydeck::models::{AppConfig, AppSettings, Provider, ProviderStatus, RequestLog, RouteStrategy};
use relaydeck::routing::{attempt_budget, select_candidates};
use std::collections::VecDeque;

fn moment(at: chrono::DateTime<Utc>) -> Moment {
    Moment { seconds: at.timestamp(), nanos: at.timestamp_subsec_nanos() }
}

fn provider(id: &str, priority: u32, latency: Option<u64>, models: &[&str]) -> Provider {
    Provider {
        id: id.into(), name: id.into(), base_url: "https://relay.example/v1".into(), api_key: Some("sk".into()),
        has_key: true, model: models.first().copied().unwrap_or("gpt-5.6-sol").into(), model_override: None,
        available_models: models.iter().map(|value| (*value).to_string()).collect(), enabled: true, priority,
        status: ProviderStatus::Healthy, latency_ms: latency, last_checked_at: None, last_error: None,
        consecutive_failures: 0, cooldown_until: None, served_count: 0, failed_count: 0, health_history: Vec::new(),
    }
}

fn config(providers: Vec<Provider>, strategy: RouteStrategy) -> AppConfig {
    AppConfig { providers, settings: AppSettings { route_strategy: strategy, ..AppSettings::default() } }
}

fn candidates(config: &AppConfig, cursor: &mut usize) -> Vec<Provider> {
    select_candidates(config, &config.settings, cursor, moment(Utc::now()))
}

fn ids(order: &[Provider]) -> Vec<&str> {
    order.iter().map(|p| p.id.as_str()).collect()
}

#[test]
fn avoids_duplicate_v1_prefix() {
    assert_eq!(join_url("https://relay.example/v1", "/v1/responses"), "https://relay.example/v1/responses");
}

#[test]
fn keeps_provider_subpath() {
    assert_eq!(
        join_url("https://relay.example/openai/v1/", "/v1/models?limit=10"),
        "https://relay.example/openai/v1/models?limit=10"
    );
}

#[test]
fn appends_full_path_to_origin() {
    assert_eq!(join_url("http://127.0.0.1:9000", "/v1/responses"), "http://127.0.0.1:9000/v1/responses");
}

#[test]
fn addresses_never_leave_the_base() {
    assert_eq!(join_url("https://x/v1///", "//v1/models"), "https://x/v1/v1/models");
    assert_eq!(join_url("https://x/v1", "/v1"), "https://x/v1/v1");
    assert_eq!(join_url("", "a"), "/a");
}

#[test]
fn priority_strategy_orders_by_priority_then_latency() {
    let config = config(vec![provider("c", 2, Some(90), &[]), provider("a", 1, Some(500), &[]), provider("b", 1, Some(120), &[])], RouteStrategy::Priority);
    let order = candidates(&config, &mut 0);
    assert_eq!(ids(&order), vec!["b", "a", "c"]);
}

#[test]
fn fastest_strategy_ignores_priority() {
    let config = config(vec![provider("slow", 1, Some(900), &[]), provider("quick", 9, Some(80), &[])], RouteStrategy::Fastest);
    let order = candidates(&config, &mut 0);
    assert_eq!(order.first().unwrap().id, "quick");
}

#[test]
fn round_robin_advances_each_request() {
    let config = config(vec![provider("a", 1, None, &[]), provider("b", 2, None, &[]), provider("c", 3, None, &[])], RouteStrategy::RoundRobin);
    let mut cursor = 0usize;
    let first = candidates(&config, &mut cursor);
    let second = candidates(&config, &mut cursor);
    let third = candidates(&config, &mut cursor);
    assert_eq!(first.first().unwrap().id, "a");
    assert_eq!(second.first().unwrap().id, "b");
    assert_eq!(third.first().unwrap().id, "c");
    // Every node stays reachable, only the head rotates.
    assert_eq!(second.len(), 3);
}

#[test]
fn round_robin_leaves_a_single_upstream_and_the_cursor_alone() {
    let config = config(vec![provider("only", 1, None, &[])], RouteStrategy::RoundRobin);
    let mut cursor = 41usize;
    assert_eq!(ids(&candidates(&config, &mut cursor)), vec!["only"]);
    assert_eq!(cursor, 41);
}

#[test]
fn the_cursor_wraps_around() {
    let config = config(vec![provider("a", 1, None, &[]), provider("b", 1, None, &[])], RouteStrategy::RoundRobin);
    let mut cursor = usize::MAX;
    assert_eq!(ids(&candidates(&config, &mut cursor)), vec!["b", "a"]);
    assert_eq!(cursor, 0);
}

#[test]
fn equal_upstreams_keep_the_order_of_the_list() {
    let config = config(vec![provider("z", 1, None, &[]), provider("y", 1, None, &[]), provider("x", 1, None, &[])], RouteStrategy::Priority);
    assert_eq!(ids(&candidates(&config, &mut 0)), vec!["z", "y", "x"]);
}

#[test]
fn cooling_and_unhealthy_nodes_drop_to_the_back_but_stay_reachable() {
    let mut cooling = provider("cooling", 1, Some(10), &[]);
    cooling.cooldown_until = Some(moment(Utc::now() + Duration::seconds(120)));
    let mut broken = provider("broken", 2, Some(20), &[]);
    broken.status = ProviderStatus::Unhealthy;
    let config = config(vec![cooling, broken, provider("good", 8, Some(300), &[])], RouteStrategy::Priority);
    let order = candidates(&config, &mut 0);
    assert_eq!(ids(&order), vec!["good", "cooling", "broken"]);
}

#[test]
fn unhealthy_nodes_take_part_where_the_user_wants_them_to() {
    let mut broken = provider("broken", 1, Some(20), &[]);
    broken.status = ProviderStatus::Unhealthy;
    let mut config = config(vec![provider("good", 8, Some(300), &[]), broken], RouteStrategy::Priority);
    config.settings.skip_unhealthy = false;
    assert_eq!(ids(&candidates(&config, &mut 0)), vec!["broken", "good"]);
}

#[test]
fn disabled_and_keyless_providers_never_route() {
    let mut disabled = provider("disabled", 1, None, &[]);
    disabled.enabled = false;
    let mut keyless = provider("keyless", 1, None, &[]);
    keyless.api_key = None;
    let config = config(vec![disabled, keyless], RouteStrategy::Priority);
    assert!(candidates(&config, &mut 0).is_empty());
}

#[test]
fn failover_covers_overload_and_optionally_auth() {
    let mut settings = AppSettings::default();
    assert!(should_failover(429, &settings));
    assert!(should_failover(502, &settings));
    assert!(should_failover(401, &settings));
    assert!(!should_failover(400, &settings));
    assert!(!should_failover(200, &settings));
    settings.failover_on_client_errors = false;
    assert!(!should_failover(401, &settings));
}

#[test]
fn failover_knows_every_status() {
    let settings = AppSettings::default();
    let switching: Vec<u16> = (100..=999).filter(|status| should_failover(*status, &settings)).collect();
    let mut wanted: Vec<u16> = vec![401, 402, 403, 404, 408, 409, 425, 429];
    wanted.extend(500..=599);
    assert_eq!(switching, wanted);
}

#[test]
fn model_is_rewritten_only_when_the_target_cannot_serve_it() {
    let settings = AppSettings::default();
    let body = br#"{"model":"gpt-5.6-sol","input":"hi"}"#.to_vec();
    assert_eq!(requested_model(&body).as_deref(), Some("gpt-5.6-sol"));

    let knows = provider("knows", 1, None, &["gpt-5.6-sol", "gpt-5.4"]);
    let (payload, model) = align_model(&body, &knows, Some("gpt-5.6-sol"), &settings);
    assert_eq!(payload, body);
    assert_eq!(model.as_deref(), Some("gpt-5.6-sol"));

    let other = provider("other", 1, None, &["glm-5", "kimi-k3"]);
    let (payload, model) = align_model(&body, &other, Some("gpt-5.6-sol"), &settings);
    assert_eq!(model.as_deref(), Some("glm-5"));
    assert_eq!(requested_model(&payload).as_deref(), Some("glm-5"));
    assert!(String::from_utf8_lossy(&payload).contains("\"input\":\"hi\""));
}

#[test]
fn manual_pin_is_used_when_remapping() {
    let settings = AppSettings::default();
    let body = br#"{"model":"gpt-5.6-sol"}"#.to_vec();
    let mut pinned = provider("pinned", 1, None, &["glm-5", "kimi-k3"]);
    pinned.model_override = Some("kimi-k3".into());
    let (_, model) = align_model(&body, &pinned, Some("gpt-5.6-sol"), &settings);
    assert_eq!(model.as_deref(), Some("kimi-k3"));
}

#[test]
fn remapping_can_be_switched_off_and_bodyless_requests_pass_through() {
    let settings = AppSettings { remap_model: false, ..AppSettings::default() };
    let body = br#"{"model":"gpt-5.6-sol"}"#.to_vec();
    let other = provider("other", 1, None, &["glm-5"]);
    let (payload, model) = align_model(&body, &other, Some("gpt-5.6-sol"), &settings);
    assert_eq!(payload, body);
    assert_eq!(model.as_deref(), Some("gpt-5.6-sol"));

    let empty = Vec::new();
    assert_eq!(requested_model(&empty), None);
    let (payload, model) = align_model(&empty, &other, None, &AppSettings::default());
    assert!(payload.is_empty());
    assert_eq!(model, None);
}

#[test]
fn rewriting_keeps_the_rest_of_the_body() {
    let body = br#"{"temperature":0.25,"model":"a","nested":{"deep":[1,-2,null,true]}}"#.to_vec();
    let sent = rewrite_model(&body, "b").unwrap();
    assert_eq!(
        String::from_utf8(sent).unwrap(),
        r#"{"model":"b","nested":{"deep":[1,-2,null,true]},"temperature":0.25}"#
    );
    assert_eq!(rewrite_model(&br#"{"input":"hi"}"#.to_vec(), "b"), None);
    assert_eq!(rewrite_model(&b"not json".to_vec(), "b"), None);
    // A member that is no string is replaced too, though it asks for no model.
    let odd = br#"{"model":7}"#.to_vec();
    assert_eq!(requested_model(&odd), None);
    assert_eq!(rewrite_model(&odd, "b"), Some(br#"{"model":"b"}"#.to_vec()));
}

#[test]
fn a_body_that_cannot_be_rewritten_is_sent_as_it_is() {
    let settings = AppSettings::default();
    let other = provider("other", 1, None, &["glm-5"]);
    let body = b"plain".to_vec();
    let (payload, model) = align_model(&body, &other, Some("gpt-5.6-sol"), &settings);
    assert_eq!(payload, body);
    assert_eq!(model.as_deref(), Some("gpt-5.6-sol"));
}

#[test]
fn attempt_budget_respects_the_configured_ceiling() {
    assert_eq!(attempt_budget(5, 3), 3);
    assert_eq!(attempt_budget(2, 3), 2);
    assert_eq!(attempt_budget(5, 0), 5);
}

#[test]
fn local_access_asks_for_the_key() {
    assert!(authorized("secret", Some("Bearer secret")));
    assert!(!authorized("secret", Some("bearer secret")));
    assert!(!authorized("secret", Some("secret")));
    assert!(!authorized("secret", None));
    assert!(authorized("", None));
}

#[test]
fn keys_and_hop_headers_stay_behind() {
    assert!(is_hop_header("Connection"));
    assert!(is_hop_header("TE"));
    assert!(!is_hop_header("content-type"));
    assert!(forwards_header("content-type"));
    assert!(!forwards_header("Authorization"));
    assert!(!forwards_header("X-Api-Key"));
    assert!(!forwards_header("host"));
}

#[test]
fn upstreams_get_their_own_key() {
    let given: Vec<(String, Vec<u8>)> = vec![
        ("accept".into(), b"a".to_vec()),
        ("Authorization".into(), b"Bearer local".to_vec()),
        ("host".into(), b"127.0.0.1".to_vec()),
        ("accept".into(), vec![0xff]),
        ("x-api-key".into(), b"local".to_vec()),
    ];
    let kept: Vec<(String, Vec<u8>)> = vec![("accept".into(), b"a".to_vec()), ("accept".into(), vec![0xff])];
    let mut upstream = provider("a", 1, None, &[]);
    upstream.api_key = Some("sk-é".into());
    let mut sent = kept.clone();
    sent.push(("authorization".into(), "Bearer sk-é".as_bytes().to_vec()));
    assert_eq!(upstream_headers(&given, &upstream), sent);
    upstream.api_key = None;
    assert_eq!(upstream_headers(&given, &upstream), kept);
}

#[test]
fn fractions_come_back_as_they_were() {
    let numbers = [
        "0.1", "-0.0", "1e-7", "2.2250738585072014e-308", "1.7976931348623157e308", "5e-324", "0.30000000000000004",
        "1e16", "1e20", "100000000000000000000",
    ];
    for number in numbers {
        let json = Json::parse(number.as_bytes()).unwrap();
        let again = Json::parse(&json.to_bytes()).unwrap();
        assert_eq!(again.to_bytes(), json.to_bytes());
        assert_eq!(
            String::from_utf8(json.to_bytes()).unwrap().parse::<f64>().unwrap().to_bits(),
            number.parse::<f64>().unwrap().to_bits()
        );
    }
    let body = br#"{"model":"a","temperature":0.123456789012345678,"top_p":1e-7}"#.to_vec();
    let sent = rewrite_model(&body, "b").unwrap();
    assert_eq!(requested_model(&sent).as_deref(), Some("b"));
    let number = |bytes: &Vec<u8>| Json::parse(bytes).unwrap().get("temperature").unwrap().to_bytes();
    assert_eq!(number(&sent), number(&body));
}

#[test]
fn answers_of_the_gateway_are_json() {
    let reply = error_response(503, "no \"upstream\"");
    assert_eq!(reply.status, 503);
    assert_eq!(
        String::from_utf8(reply.body).unwrap(),
        r#"{"error":{"message":"no \"upstream\"","type":"relaydeck_gateway_error"}}"#
    );
}

#[test]
fn failures_are_described_and_weighed() {
    assert_eq!(Failure::Status(404).message("A"), "A 返回 HTTP 404 Not Found");
    assert_eq!(Failure::Status(799).message("A"), "A 返回 HTTP 799 <unknown status code>");
    assert_eq!(Failure::Transport("timed out".into()).message("A"), "A: timed out");
    assert!(!Failure::Status(429).marks_unhealthy());
    assert!(Failure::Status(500).marks_unhealthy());
    assert!(Failure::Transport(String::new()).marks_unhealthy());
}

#[test]
fn outcomes_are_remembered() {
    let at = Moment { seconds: 100, nanos: 0 };
    let mut config = config(vec![provider("a", 1, None, &[]), provider("b", 1, None, &[])], RouteStrategy::Priority);
    let settings = config.settings.clone();
    record_failure(&mut config, "a", &Failure::Status(429), &settings, at);
    assert_eq!(config.providers[0].failed_count, 1);
    assert_eq!(config.providers[0].consecutive_failures, 1);
    assert_eq!(config.providers[0].status, ProviderStatus::Healthy);
    assert!(!config.providers[0].in_cooldown(at));
    record_failure(&mut config, "a", &Failure::Status(500), &settings, at);
    assert_eq!(config.providers[0].status, ProviderStatus::Unhealthy);
    assert_eq!(config.providers[0].cooldown_until, Some(Moment { seconds: 160, nanos: 0 }));
    assert_eq!(config.providers[0].last_error.as_deref(), Some("a 返回 HTTP 500 Internal Server Error"));
    record_success(&mut config, "a");
    assert_eq!(config.providers[0].status, ProviderStatus::Healthy);
    assert_eq!(config.providers[0].served_count, 1);
    assert_eq!(config.providers[0].cooldown_until, None);
    assert_eq!(config.providers[0].last_error, None);
    assert_eq!(config.providers[1].failed_count, 0);
    record_success(&mut config, "nobody");
    assert_eq!(config.providers[1].served_count, 0);
}

#[test]
fn a_probe_under_way_keeps_its_status() {
    let at = Moment { seconds: 100, nanos: 0 };
    let mut config = config(vec![provider("a", 1, None, &[])], RouteStrategy::Priority);
    config.providers[0].status = ProviderStatus::Checking;
    let settings = config.settings.clone();
    record_failure(&mut config, "a", &Failure::Status(500), &settings, at);
    assert_eq!(config.providers[0].status, ProviderStatus::Checking);
    record_success(&mut config, "a");
    assert_eq!(config.providers[0].status, ProviderStatus::Checking);
}

#[test]
fn the_log_keeps_the_newest_requests() {
    let mut logs: VecDeque<RequestLog> = VecDeque::new();
    for number in 0..MAX_LOGS + 5 {
        push_log(&mut logs, RequestLog {
            id: number.to_string(), timestamp: Moment { seconds: 0, nanos: 0 }, method: "POST".into(), path: "/".into(),
            provider_name: "p".into(), status_code: 200, latency_ms: 1, attempts: 1, requested_model: None,
            upstream_model: None, error: None,
        });
    }
    assert_eq!(logs.len(), 300);
    assert_eq!(logs.front().unwrap().id, "304");
    assert_eq!(logs.back().unwrap().id, "5");
}

#[test]
fn json_is_read_and_written() {
    let json = Json::parse(br#"{"a":1,"b":[{"c":"d"}],"a":2}"#).unwrap();
    assert!(matches!(json.get("a"), Some(Json::Unsigned(2))));
    assert_eq!(json.get("b").unwrap().as_array().unwrap()[0].get_text("c").as_deref(), Some("d"));
    assert!(json.get("z").is_none());
    assert_eq!(json.to_bytes(), br#"{"a":2,"b":[{"c":"d"}]}"#.to_vec());
    assert_eq!(Json::parse(b"{").unwrap_err(), "EOF while parsing an object at line 1 column 1");
    assert!(matches!(Json::parse(b"-3").unwrap(), Json::Signed(-3)));
    assert!(matches!(Json::parse(b"1.5").unwrap(), Json::Float(_)));
    assert_eq!(Json::parse(b"1.5").unwrap().to_bytes(), b"1.5".to_vec());
    assert_eq!(Json::Signed(4).to_bytes(), b"4".to_vec());
    let deep = format!("{}{}", "[".repeat(127), "]".repeat(127));
    assert!(Json::parse(deep.as_bytes()).is_ok());
    let deeper = format!("{}{}", "[".repeat(128), "]".repeat(128));
    assert!(Json::parse(deeper.as_bytes()).is_err());
}

#[test]
fn no_member_name_is_special() {
    for name in ["$serde_json::private::RawValue", "$serde_json::private::Number", "$"] {
        let text = format!(r#"{{"{name}":"1","z":{{"{name}":"no json"}}}}"#);
        let json = Json::parse(text.as_bytes()).unwrap();
        assert_eq!(json.get_text(name).as_deref(), Some("1"));
        assert_eq!(json.to_bytes(), text.into_bytes());
        let body = format!(r#"{{"model":"a","{name}":"x"}}"#).into_bytes();
        let sent = rewrite_model(&body, "b").unwrap();
        assert_eq!(requested_model(&sent).as_deref(), Some("b"));
        assert_eq!(Json::parse(&sent).unwrap().get_text(name).as_deref(), Some("x"));
    }
}

use relaydeck::clock::Moment;
use relaydeck::exchange::{advance, begin, check_access, refuse_body, Exchange, GatewayMetrics, Outcome, Step};
use relaydeck::models::{AppConfig, AppSettings, Provider, ProviderStatus};

const NOW: Moment = Moment { seconds: 1_000, nanos: 0 };

fn node(id: &str, priority: u32, models: &[&str]) -> Provider {
    Provider {
        id: id.into(), name: id.to_uppercase(), base_url: format!("https://{id}.example/v1/"), api_key: Some("sk".into()),
        has_key: true, model: models.first().copied().unwrap_or("m").into(), model_override: None,
        available_models: models.iter().map(|value| (*value).to_string()).collect(), enabled: true, priority,
        status: ProviderStatus::Healthy, latency_ms: None, last_checked_at: None, last_error: None,
        consecutive_failures: 0, cooldown_until: None, served_count: 0, failed_count: 0, health_history: Vec::new(),
    }
}

fn three() -> AppConfig {
    AppConfig {
        providers: vec![node("a", 1, &["glm-5"]), node("b", 2, &["gpt"]), node("c", 3, &[])],
        settings: AppSettings { max_failover_attempts: 0, ..AppSettings::default() },
    }
}

fn start(config: &AppConfig, metrics: &mut GatewayMetrics) -> Exchange {
    let body = br#"{"model":"gpt"}"#.to_vec();
    begin(config, config.settings.clone(), &mut 0, metrics, "POST".into(), "/v1/responses".into(), body, NOW).unwrap()
}

#[test]
fn requests_without_the_key_are_turned_away_uncounted() {
    let settings = AppSettings { local_access_key: "k".into(), ..AppSettings::default() };
    let mut metrics = GatewayMetrics::default();
    let refusal = check_access(&settings, Some("Bearer x"), &mut metrics).unwrap();
    assert_eq!(refusal.status, 401);
    assert!(String::from_utf8(refusal.body).unwrap().contains("invalid RelayDeck local access key"));
    assert_eq!(metrics.requests, 0);
    assert!(check_access(&settings, Some("Bearer k"), &mut metrics).is_none());
    assert_eq!((metrics.requests, metrics.active_connections), (1, 1));
    metrics.close();
    assert_eq!((metrics.requests, metrics.active_connections), (1, 0));
}

#[test]
fn bodies_that_cannot_be_read_are_answered() {
    let reply = refuse_body("length limit exceeded");
    assert_eq!(reply.status, 413);
    assert!(String::from_utf8(reply.body).unwrap().contains("request body rejected: length limit exceeded"));
}

#[test]
fn without_upstreams_the_gateway_answers_itself() {
    let config = AppConfig::default();
    let mut metrics = GatewayMetrics::default();
    let reply = begin(&config, config.settings.clone(), &mut 0, &mut metrics, "GET".into(), "/".into(), vec![1, 2], NOW).unwrap_err();
    assert_eq!(reply.status, 503);
    assert!(String::from_utf8(reply.body).unwrap().contains("没有可用的中转节点，请先启用并测活 Provider"));
    assert_eq!((metrics.failures, metrics.input_bytes), (1, 2));
}

#[test]
fn the_first_attempt_is_aligned_with_its_upstream() {
    let config = three();
    let mut metrics = GatewayMetrics::default();
    let exchange = start(&config, &mut metrics);
    assert_eq!(exchange.url(), "https://a.example/v1/responses");
    assert_eq!(exchange.payload, br#"{"model":"glm-5"}"#.to_vec());
    assert_eq!(exchange.upstream_model.as_deref(), Some("glm-5"));
    assert_eq!(exchange.requested_model.as_deref(), Some("gpt"));
    assert_eq!((exchange.attempts, exchange.budget), (1, 3));
    assert_eq!(metrics.input_bytes, 15);
}

#[test]
fn a_success_is_passed_on_and_remembered() {
    let mut config = three();
    let mut metrics = GatewayMetrics::default();
    let exchange = start(&config, &mut metrics);
    match advance(exchange, Outcome::Response(201), &mut config, &mut metrics, 42, NOW) {
        Step::Relay(log) => {
            assert_eq!(log.provider_name, "A");
            assert_eq!((log.status_code, log.latency_ms, log.attempts), (201, 42, 1));
            assert_eq!(log.upstream_model.as_deref(), Some("glm-5"));
            assert_eq!(log.error, None);
            assert_eq!(log.timestamp, NOW);
        }
        other => panic!("{other:?}"),
    }
    assert_eq!((metrics.successes, metrics.failures, metrics.total_latency_ms), (1, 0, 42));
    assert_eq!(config.providers[0].served_count, 1);
}

#[test]
fn an_error_of_the_client_is_passed_on_at_once() {
    let mut config = three();
    let mut metrics = GatewayMetrics::default();
    let exchange = start(&config, &mut metrics);
    match advance(exchange, Outcome::Response(400), &mut config, &mut metrics, 1, NOW) {
        Step::Relay(log) => assert_eq!(log.error.as_deref(), Some("HTTP 400 Bad Request")),
        other => panic!("{other:?}"),
    }
    assert_eq!((metrics.failures, metrics.failovers), (1, 0));
    assert_eq!(config.providers[0].failed_count, 1);
}

#[test]
fn failing_upstreams_are_left_one_after_the_other() {
    let mut config = three();
    let mut metrics = GatewayMetrics::default();
    let exchange = start(&config, &mut metrics);
    let exchange = match advance(exchange, Outcome::Response(503), &mut config, &mut metrics, 1, NOW) {
        Step::Retry(next) => next,
        other => panic!("{other:?}"),
    };
    assert_eq!(exchange.url(), "https://b.example/v1/responses");
    assert_eq!(exchange.payload, br#"{"model":"gpt"}"#.to_vec());
    let exchange = match advance(exchange, Outcome::NoResponse("refused".into()), &mut config, &mut metrics, 2, NOW) {
        Step::Retry(next) => next,
        other => panic!("{other:?}"),
    };
    assert_eq!(exchange.provider().id, "c");
    assert_eq!(exchange.attempts, 3);
    match advance(exchange, Outcome::NoResponse("timeout".into()), &mut config, &mut metrics, 9, NOW) {
        Step::Fail(log, reply) => {
            assert_eq!(reply.status, 502);
            assert!(String::from_utf8(reply.body).unwrap().contains("所有节点都失败了: C: timeout"));
            assert_eq!(log.provider_name, "无可用节点");
            assert_eq!((log.status_code, log.attempts), (502, 3));
            assert_eq!(log.error.as_deref(), Some("C: timeout"));
            assert_eq!(log.upstream_model, None);
        }
        other => panic!("{other:?}"),
    }
    assert_eq!((metrics.failovers, metrics.failures, metrics.total_latency_ms), (2, 1, 9));
    assert_eq!(config.providers.iter().map(|p| p.failed_count).sum::<u64>(), 3);
}

#[test]
fn the_last_upstream_in_the_budget_has_the_last_word() {
    let mut config = three();
    config.settings.max_failover_attempts = 1;
    let mut metrics = GatewayMetrics::default();
    let exchange = start(&config, &mut metrics);
    assert_eq!(exchange.budget, 1);
    match advance(exchange, Outcome::Response(500), &mut config, &mut metrics, 1, NOW) {
        Step::Relay(log) => assert_eq!(log.status_code, 500),
        other => panic!("{other:?}"),
    }
    assert_eq!(config.providers[0].status, ProviderStatus::Unhealthy);
}

#[test]
fn bytes_that_go_out_are_counted() {
    let mut metrics = GatewayMetrics::default();
    metrics.send(10);
    metrics.send(5);
    assert_eq!(metrics.output_bytes, 15);
    metrics.output_bytes = u64::MAX;
    metrics.send(2);
    assert_eq!(metrics.output_bytes, 1);
}

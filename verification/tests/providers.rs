use relaydeck::clock::Moment;
use relaydeck::dashboard::{average_latency, clear_logs, mark_started, mark_stopped, status_from, uptime_seconds};
use relaydeck::discovery::Finding;
use relaydeck::exchange::GatewayMetrics;
use relaydeck::health::{
    any_cooling, batches, begin_check, enabled_ids, finish_check, health_wait, model_to_probe, models_call, probe_call,
};
use relaydeck::models::{AppConfig, AppSettings, Provider, ProviderInput, ProviderStatus, RouteStrategy};
use relaydeck::providers::{
    add_imported, awaken, clear_provider_cooldown, codex_target, delete_provider, id_for, import_one, move_provider, new_secret,
    place_in_order, plan_import, plan_import_as, provider_from_input, set_provider_model, toggle_provider, upsert, validate_provider,
};
use relaydeck::routing::select_candidates;
use relaydeck::settings::{
    build_probe_client, build_proxy_client, listen_failure, needs_restart, reset_access_key, validate_settings,
};
use std::collections::VecDeque;

fn provider(name: &str, priority: u32, status: ProviderStatus, model: &str) -> Provider {
    Provider {
        id: name.into(), name: name.into(), base_url: "https://relay.example/v1".into(), api_key: Some("sk".into()),
        has_key: true, model: model.into(), model_override: None, available_models: vec![model.into()], enabled: true,
        priority, status, latency_ms: None, last_checked_at: None, last_error: None, consecutive_failures: 0,
        cooldown_until: None, served_count: 0, failed_count: 0, health_history: Vec::new(),
    }
}

fn named(names: &[&str]) -> AppConfig {
    let providers = names
        .iter()
        .enumerate()
        .map(|(place, name)| provider(name, place as u32 * 10 + 10, ProviderStatus::Healthy, "m"))
        .collect();
    AppConfig { providers, settings: AppSettings::default() }
}

fn input(name: &str) -> ProviderInput {
    ProviderInput {
        id: None, name: name.into(), base_url: "https://relay.example/v1/".into(), api_key: Some("sk-new".into()),
        model: None, model_override: None, enabled: true, priority: 5,
    }
}

fn names(config: &AppConfig) -> Vec<(&str, u32)> {
    config.providers.iter().map(|p| (p.name.as_str(), p.priority)).collect()
}

#[test]
fn codex_target_prefers_healthy_then_priority() {
    let config = AppConfig {
        providers: vec![
            provider("backup", 1, ProviderStatus::Unhealthy, "glm-5"),
            provider("main", 3, ProviderStatus::Healthy, "gpt-5.6-sol"),
            provider("spare", 2, ProviderStatus::Healthy, "gpt-5.4"),
        ],
        settings: AppSettings::default(),
    };
    assert_eq!(codex_target(&config).unwrap(), ("spare".into(), "gpt-5.4".into()));
}

#[test]
fn codex_target_falls_back_to_an_unprobed_node() {
    let config = AppConfig { providers: vec![provider("fresh", 1, ProviderStatus::Unknown, "glm-5")], settings: AppSettings::default() };
    assert_eq!(codex_target(&config).unwrap().1, "glm-5");
}

#[test]
fn codex_target_rejects_providers_without_a_discovered_model() {
    let config = AppConfig { providers: vec![provider("pending", 1, ProviderStatus::Unknown, "自动获取中")], settings: AppSettings::default() };
    assert!(codex_target(&config).is_err());
}

#[test]
fn codex_target_uses_the_manual_pin() {
    let mut pinned = provider("pinned", 1, ProviderStatus::Healthy, "glm-5");
    pinned.model_override = Some("kimi-k3".into());
    let config = AppConfig { providers: vec![pinned], settings: AppSettings::default() };
    assert_eq!(codex_target(&config).unwrap().1, "kimi-k3");
}

#[test]
fn codex_target_explains_what_is_missing() {
    assert_eq!(codex_target(&AppConfig::default()).unwrap_err(), "请先导入并测活至少一个 Provider");
    let config = AppConfig {
        providers: vec![
            provider("checking", 9, ProviderStatus::Checking, "a"),
            provider("failed", 1, ProviderStatus::Unhealthy, "b"),
        ],
        settings: AppSettings::default(),
    };
    assert_eq!(codex_target(&config).unwrap().0, "checking");
}

#[test]
fn settings_validation_guards_every_timeout() {
    let base = AppSettings::default();
    assert!(validate_settings(base.clone()).is_ok());
    assert!(validate_settings(AppSettings { gateway_port: 80, ..base.clone() }).is_err());
    assert!(validate_settings(AppSettings { connect_timeout_seconds: 0, ..base.clone() }).is_err());
    assert!(validate_settings(AppSettings { stream_idle_timeout_seconds: 5, ..base.clone() }).is_err());
    assert!(validate_settings(AppSettings { health_interval_minutes: 0, ..base.clone() }).is_err());
    assert!(validate_settings(AppSettings { max_failover_attempts: 50, ..base.clone() }).is_err());
    assert!(validate_settings(AppSettings { local_access_key: "   ".into(), ..base }).is_err());
}

#[test]
fn every_setting_is_refused_in_its_own_words() {
    let base = AppSettings::default();
    let refusal = |settings: AppSettings| validate_settings(settings).unwrap_err();
    assert_eq!(refusal(AppSettings { gateway_port: 1023, ..base.clone() }), "端口必须在 1024 到 65535 之间");
    assert_eq!(refusal(AppSettings { request_timeout_seconds: 9, ..base.clone() }), "测活超时必须在 10 到 600 秒之间");
    assert_eq!(refusal(AppSettings { connect_timeout_seconds: 121, ..base.clone() }), "连接超时必须在 1 到 120 秒之间");
    assert_eq!(refusal(AppSettings { stream_idle_timeout_seconds: 3601, ..base.clone() }), "流空闲超时必须在 10 到 3600 秒之间");
    assert_eq!(refusal(AppSettings { health_interval_minutes: 121, ..base.clone() }), "保活间隔必须在 1 到 120 分钟之间");
    assert_eq!(refusal(AppSettings { max_failover_attempts: 21, ..base.clone() }), "最大切换次数不能超过 20");
    assert_eq!(refusal(AppSettings { cooldown_seconds: 901, ..base.clone() }), "冷却时间不能超过 900 秒");
    assert_eq!(refusal(AppSettings { local_access_key: "\u{3000}\t".into(), ..base.clone() }), "本地访问密钥不能为空");
    let accepted = validate_settings(AppSettings { local_access_key: "  key\n".into(), cooldown_seconds: 900, ..base }).unwrap();
    assert_eq!(accepted.local_access_key, "key");
    assert_eq!(validate_settings(accepted).unwrap().local_access_key, "key");
}

#[test]
fn access_keys_can_be_replaced() {
    let mut settings = AppSettings { local_access_key: "old".into(), gateway_port: 4000, ..AppSettings::default() };
    reset_access_key(&mut settings);
    assert!(settings.local_access_key.starts_with("rd_local_"));
    assert_eq!(settings.gateway_port, 4000);
    assert!(needs_restart(true, 4001, &settings));
    assert!(!needs_restart(true, 4000, &settings));
    assert!(!needs_restart(false, 4001, &settings));
}

#[test]
fn connections_follow_the_settings() {
    let settings = AppSettings::default();
    let probe = build_probe_client(&settings);
    assert_eq!((probe.connect_seconds, probe.total_seconds, probe.read_seconds), (10, Some(30), None));
    assert_eq!((probe.keepalive_seconds, probe.idle_connections, probe.idle_seconds), (Some(30), 8, Some(300)));
    let proxy = build_proxy_client(&AppSettings { upstream_keep_alive: false, stream_idle_timeout_seconds: 1, connect_timeout_seconds: 500, ..settings });
    assert_eq!((proxy.connect_seconds, proxy.total_seconds, proxy.read_seconds), (120, None, Some(10)));
    assert_eq!((proxy.keepalive_seconds, proxy.idle_connections, proxy.idle_seconds), (None, 0, None));
}

#[test]
fn inputs_are_checked_before_they_are_saved() {
    let refusal = |input: ProviderInput| validate_provider(&input).unwrap_err();
    assert!(validate_provider(&input("a")).is_ok());
    assert_eq!(refusal(ProviderInput { name: "  ".into(), ..input("a") }), "名称不能为空");
    assert_eq!(refusal(ProviderInput { base_url: "ftp://x".into(), ..input("a") }), "API 地址必须以 http:// 或 https:// 开头");
    assert_eq!(refusal(ProviderInput { priority: 0, ..input("a") }), "路由优先级必须在 1 到 99 之间");
    assert_eq!(refusal(ProviderInput { priority: 100, ..input("a") }), "路由优先级必须在 1 到 99 之间");
}

#[test]
fn a_new_provider_starts_unknown() {
    let config = AppConfig::default();
    let wanted = ProviderInput { name: " Main ".into(), model_override: Some("  pin ".into()), ..input("x") };
    let id = id_for(&wanted);
    assert_eq!(id.len(), 36);
    let saved = provider_from_input(&config, &id, &wanted).unwrap();
    assert_eq!(saved.id, id);
    assert_eq!(saved.name, "Main");
    assert_eq!(saved.base_url, "https://relay.example/v1");
    assert_eq!(saved.api_key.as_deref(), Some("sk-new"));
    assert_eq!(saved.model, "自动获取中");
    assert_eq!(saved.model_override.as_deref(), Some("pin"));
    assert_eq!(saved.status, ProviderStatus::Unknown);
    assert!(saved.has_key && saved.available_models.is_empty());
    assert_eq!(new_secret(&wanted).as_deref(), Some("sk-new"));
}

#[test]
fn saving_keeps_what_is_known() {
    let mut config = named(&["a", "b"]);
    config.providers[1].served_count = 7;
    config.providers[1].consecutive_failures = 3;
    config.providers[1].cooldown_until = Some(Moment { seconds: 9, nanos: 0 });
    config.providers[1].latency_ms = Some(55);
    let change = ProviderInput { id: Some("b".into()), api_key: Some(" ".into()), model: Some("".into()), ..input("B2") };
    assert_eq!(id_for(&change), "b");
    assert_eq!(new_secret(&change), None);
    let saved = provider_from_input(&config, "b", &change).unwrap();
    assert_eq!(saved.api_key.as_deref(), Some("sk"));
    assert_eq!((saved.model.as_str(), saved.served_count, saved.latency_ms), ("m", 7, Some(55)));
    assert_eq!((saved.consecutive_failures, saved.cooldown_until), (0, None));
    upsert(&mut config, saved);
    assert_eq!(names(&config), vec![("a", 10), ("B2", 5)]);
    upsert(&mut config, provider("new", 1, ProviderStatus::Unknown, "m"));
    assert_eq!(config.providers.len(), 3);
}

#[test]
fn a_provider_needs_a_key() {
    let config = AppConfig::default();
    let keyless = ProviderInput { api_key: None, ..input("a") };
    assert_eq!(provider_from_input(&config, "x", &keyless).unwrap_err(), "API Key 不能为空");
    assert_eq!(import_one("x", &keyless).unwrap_err(), "a 缺少 API Key");
}

#[test]
fn imports_stop_at_the_first_bad_input() {
    let plan = plan_import(&vec![input("a"), ProviderInput { api_key: Some("".into()), ..input("b") }, input("c")]);
    assert_eq!(plan.providers.len(), 1);
    assert_eq!(plan.providers[0].name, "a");
    assert_eq!(plan.providers[0].id.len(), 36);
    assert_eq!(plan.refusal.as_deref(), Some("b 缺少 API Key"));
    let plan = plan_import(&vec![input("a"), input("b")]);
    assert_eq!(plan.providers.len(), 2);
    assert_ne!(plan.providers[0].id, plan.providers[1].id);
    assert_eq!(plan.refusal, None);
    assert_eq!(plan_import(&Vec::new()).refusal.as_deref(), Some("没有可导入的 Provider"));
}

#[test]
fn imports_are_put_behind_the_others() {
    let mut config = named(&["x", "y"]);
    let plan = plan_import_as(&vec![input(" a "), input("b")], &vec!["1".into(), "2".into()]);
    assert_eq!(plan.refusal, None);
    for provider in plan.providers {
        add_imported(&mut config, provider);
    }
    let listed: Vec<_> = config.providers.iter().map(|p| (p.id.as_str(), p.name.as_str(), p.base_url.as_str())).collect();
    assert_eq!(
        listed,
        vec![
            ("x", "x", "https://relay.example/v1"),
            ("y", "y", "https://relay.example/v1"),
            ("1", "a", "https://relay.example/v1"),
            ("2", "b", "https://relay.example/v1"),
        ]
    );
    assert_eq!(config.providers[2].api_key.as_deref(), Some("sk-new"));
}

#[test]
fn the_first_of_equals_is_given_to_codex() {
    let mut config = named(&["a", "b", "c"]);
    config.providers[0].model = "".into();
    config.providers[1].priority = 7;
    config.providers[2].priority = 7;
    assert_eq!(codex_target(&config).unwrap().0, "b");
}

#[test]
fn providers_are_deleted_switched_and_pinned() {
    let mut config = named(&["a", "b"]);
    config.providers[0].consecutive_failures = 4;
    toggle_provider(&mut config, "a", false).unwrap();
    assert!(!config.providers[0].enabled);
    assert_eq!(config.providers[0].consecutive_failures, 4);
    toggle_provider(&mut config, "a", true).unwrap();
    assert_eq!(config.providers[0].consecutive_failures, 0);
    assert_eq!(toggle_provider(&mut config, "z", true).unwrap_err(), "Provider 不存在");
    let pinned = set_provider_model(&mut config, "b", Some(" glm ".into())).unwrap();
    assert_eq!(pinned.model_override.as_deref(), Some("glm"));
    assert_eq!(config.providers[1].model_override.as_deref(), Some("glm"));
    assert_eq!(set_provider_model(&mut config, "b", Some(" ".into())).unwrap().model_override, None);
    assert_eq!(set_provider_model(&mut config, "z", None).unwrap_err(), "Provider 不存在");
    delete_provider(&mut config, "a");
    assert_eq!(names(&config), vec![("b", 20)]);
    delete_provider(&mut config, "a");
    assert_eq!(config.providers.len(), 1);
}

#[test]
fn a_pause_can_be_ended_by_hand() {
    let mut config = named(&["a"]);
    config.providers[0].cooldown_until = Some(Moment { seconds: i64::MAX / 4, nanos: 0 });
    config.providers[0].status = ProviderStatus::Unhealthy;
    config.providers[0].last_error = Some("x".into());
    clear_provider_cooldown(&mut config, "a").unwrap();
    assert_eq!(config.providers[0].cooldown_until, None);
    assert_eq!(config.providers[0].status, ProviderStatus::Unknown);
    assert_eq!(config.providers[0].last_error, None);
    assert_eq!(clear_provider_cooldown(&mut config, "z").unwrap_err(), "Provider 不存在");
}

#[test]
fn moves_renumber_and_stay_within_the_list() {
    let mut config = named(&["a", "b", "c"]);
    let list = move_provider(&mut config, "c", -1).unwrap();
    assert_eq!(list.len(), 3);
    assert_eq!(names(&config), vec![("a", 1), ("c", 2), ("b", 3)]);
    move_provider(&mut config, "a", 50).unwrap();
    assert_eq!(names(&config), vec![("c", 1), ("b", 2), ("a", 3)]);
    move_provider(&mut config, "a", -50).unwrap();
    assert_eq!(names(&config), vec![("a", 1), ("c", 2), ("b", 3)]);
    assert_eq!(place_in_order(&config, "b"), Some(2));
    assert_eq!(place_in_order(&config, "nobody"), None);
    move_provider(&mut config, "a", i32::MAX).unwrap();
    move_provider(&mut config, "a", i32::MIN).unwrap();
    move_provider(&mut config, "c", 1).unwrap();
    move_provider(&mut config, "c", -1).unwrap();
    assert_eq!(names(&config), vec![("a", 1), ("c", 2), ("b", 3)]);
}

#[test]
fn moving_nobody_still_sorts_the_list() {
    let mut config = named(&["a", "b"]);
    config.providers[0].priority = 99;
    assert_eq!(move_provider(&mut config, "z", 1).unwrap_err(), "Provider 不存在");
    assert_eq!(names(&config), vec![("b", 20), ("a", 99)]);
}

#[test]
fn a_new_run_starts_afresh() {
    let mut stored = provider("a", 1, ProviderStatus::Unhealthy, "m");
    stored.consecutive_failures = 5;
    awaken(&mut stored, None);
    assert!(!stored.has_key && stored.api_key.is_none());
    assert_eq!((stored.status, stored.consecutive_failures), (ProviderStatus::Unknown, 0));
    awaken(&mut stored, Some("key".into()));
    assert_eq!((stored.has_key, stored.api_key.as_deref()), (true, Some("key")));
}

#[test]
fn probes_are_folded_into_the_provider() {
    let at = Moment { seconds: 500, nanos: 0 };
    let mut config = named(&["a"]);
    let taken = begin_check(&mut config, "a").unwrap();
    assert_eq!(config.providers[0].status, ProviderStatus::Checking);
    let call = models_call(&taken);
    assert_eq!((call.url.as_str(), call.bearer.as_str()), ("https://relay.example/v1/models", "sk"));
    let call = probe_call(&Provider { api_key: None, ..taken.clone() });
    assert_eq!((call.url.as_str(), call.bearer.as_str()), ("https://relay.example/v1/responses", ""));
    let listed = Finding::Listed("glm".into(), vec!["glm".into(), "z".into()]);
    let healthy = finish_check(&mut config, "a", taken, listed, None, 33, at);
    assert_eq!(healthy.status, ProviderStatus::Healthy);
    assert_eq!(config.providers[0].model, "glm");
    assert_eq!(config.providers[0].latency_ms, Some(33));
    assert_eq!(config.providers[0].last_checked_at, Some(at));
    assert!(config.providers[0].health_history[0].ok);

    let taken = begin_check(&mut config, "a").unwrap();
    let refused = Finding::Listed("z".into(), vec!["z".into()]);
    finish_check(&mut config, "a", taken, refused, Some("bad key".into()), 1, at);
    assert_eq!(config.providers[0].status, ProviderStatus::Unhealthy);
    assert_eq!(config.providers[0].model, "z");
    assert_eq!(config.providers[0].last_error.as_deref(), Some("bad key"));
    assert_eq!(config.providers[0].cooldown_until, None);

    let taken = begin_check(&mut config, "a").unwrap();
    finish_check(&mut config, "a", taken, Finding::Unreachable("dns".into()), None, 1, at);
    assert_eq!(config.providers[0].latency_ms, None);
    assert_eq!(config.providers[0].consecutive_failures, 2);
    assert_eq!(config.providers[0].cooldown_until, Some(Moment { seconds: 560, nanos: 0 }));
    assert_eq!(config.providers[0].available_models, vec!["z"]);

    let taken = begin_check(&mut config, "a").unwrap();
    let faulty = finish_check(&mut config, "gone", taken, Finding::Faulty("HTTP 500".into()), None, 8, at);
    assert_eq!(faulty.latency_ms, Some(8));
    assert_eq!(config.providers[0].status, ProviderStatus::Checking);
    assert_eq!(begin_check(&mut config, "gone").unwrap_err(), "Provider 不存在");
}

#[test]
fn sweeps_probe_enabled_providers_in_batches() {
    let mut config = named(&["a", "b", "c", "d", "e", "f"]);
    config.providers[2].enabled = false;
    let ids = enabled_ids(&config);
    assert_eq!(ids, vec!["a", "b", "d", "e", "f"]);
    assert_eq!(batches(&ids), vec![vec!["a", "b", "d", "e"], vec!["f"]]);
    assert!(batches(&Vec::new()).is_empty());
    assert_eq!(batches(&vec!["1".into(), "2".into(), "3".into(), "4".into()]).len(), 1);
}

#[test]
fn recovery_is_checked_every_half_minute() {
    let at = Moment { seconds: 10, nanos: 0 };
    let mut config = named(&["a"]);
    assert!(!any_cooling(&config, at));
    assert_eq!(health_wait(&config.settings, false), 300);
    config.providers[0].cooldown_until = Some(Moment { seconds: 11, nanos: 0 });
    assert!(any_cooling(&config, at));
    assert_eq!(health_wait(&config.settings, true), 30);
    config.settings.health_interval_minutes = 100_000;
    assert_eq!(health_wait(&config.settings, false), 7200);
    config.settings.health_interval_minutes = 0;
    assert_eq!(health_wait(&config.settings, false), 60);
}

#[test]
fn the_dashboard_counts_and_forgets() {
    let at = Moment { seconds: 1_000, nanos: 0 };
    let mut config = named(&["a", "b", "c"]);
    config.providers[0].cooldown_until = Some(Moment { seconds: 1_001, nanos: 0 });
    config.providers[1].enabled = false;
    config.providers[2].served_count = 4;
    config.settings.route_strategy = RouteStrategy::Fastest;
    let mut metrics = GatewayMetrics { requests: 3, total_latency_ms: 100, active_connections: 1, ..GatewayMetrics::default() };
    mark_started(&mut metrics, Moment { seconds: 400, nanos: 0 });
    let status = status_from(&config, &metrics, true, at);
    assert_eq!((status.routable_count, status.cooldown_count), (1, 1));
    assert_eq!((status.average_latency_ms, status.uptime_seconds), (33, 600));
    assert_eq!((status.host.as_str(), status.port, status.strategy), ("127.0.0.1", 1455, RouteStrategy::Fastest));
    assert_eq!(uptime_seconds(&metrics, false, at), 0);
    assert_eq!(uptime_seconds(&metrics, true, Moment { seconds: 1, nanos: 0 }), 0);
    let mut logs = VecDeque::new();
    clear_logs(&mut logs, &mut metrics, &mut config);
    assert_eq!((metrics.requests, metrics.total_latency_ms, metrics.active_connections, metrics.started_at), (0, 0, 1, 400));
    assert_eq!(config.providers[2].served_count, 0);
    assert_eq!(average_latency(&metrics), 0);
    mark_stopped(&mut metrics);
    assert_eq!(uptime_seconds(&metrics, true, at), 0);
    mark_started(&mut metrics, Moment { seconds: -5, nanos: 0 });
    assert_eq!(metrics.started_at, 0);
}

#[test]
fn only_deep_checks_ask_a_model() {
    let listed = Finding::Listed("glm-5".into(), vec!["glm-5".into()]);
    assert_eq!(model_to_probe(&listed, true), Some("glm-5"));
    assert_eq!(model_to_probe(&listed, false), None);
    assert_eq!(model_to_probe(&Finding::Faulty("HTTP 500".into()), true), None);
    assert_eq!(model_to_probe(&Finding::Unreachable("refused".into()), true), None);
}

#[test]
fn recovered_providers_return_to_the_rotation() {
    let at = Moment { seconds: 10, nanos: 0 };
    let mut config = named(&["a", "b"]);
    config.providers[0].status = ProviderStatus::Unhealthy;
    config.providers[0].consecutive_failures = 5;
    config.providers[0].cooldown_until = Some(Moment { seconds: 500, nanos: 0 });
    let settings = config.settings.clone();
    let mut cursor = 0;
    assert_eq!(select_candidates(&config, &settings, &mut cursor, at)[0].id, "b");
    let provider = begin_check(&mut config, "a").unwrap();
    let finding = Finding::Listed("m".into(), vec!["m".into()]);
    let updated = finish_check(&mut config, "a", provider, finding, None, 40, at);
    assert_eq!(updated.status, ProviderStatus::Healthy);
    assert_eq!(select_candidates(&config, &settings, &mut cursor, at)[0].id, "a");
}

#[test]
fn a_taken_port_is_named() {
    assert_eq!(listen_failure(1455, "in use"), "端口 1455 无法监听: in use");
}

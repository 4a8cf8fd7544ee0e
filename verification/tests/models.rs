use chrono::Utc;
use relaydeck::clock::{parse_time, time_text, Moment};
use relaydeck::ids::{fresh_access_key, fresh_id};
use relaydeck::models::{
    AppConfig, AppSettings, CodexSession, CodexStatus, Provider, ProviderStatus, RouteStrategy, SessionOverview,
    SessionRepairResult, HEALTH_HISTORY_LIMIT,
};
use relaydeck::RelayError;

fn now() -> Moment {
    let at = Utc::now();
    Moment { seconds: at.timestamp(), nanos: at.timestamp_subsec_nanos() }
}

fn provider() -> Provider {
    Provider {
        id: "id".into(), name: "N".into(), base_url: "https://x/v1".into(), api_key: Some("k".into()), has_key: true,
        model: "gpt-5.6-sol".into(), model_override: None, available_models: vec!["gpt-5.6-sol".into()], enabled: true,
        priority: 1, status: ProviderStatus::Healthy, latency_ms: Some(120), last_checked_at: None, last_error: None,
        consecutive_failures: 0, cooldown_until: None, served_count: 0, failed_count: 0, health_history: Vec::new(),
    }
}

#[test]
fn manual_pin_wins_over_discovered_model() {
    let mut provider = provider();
    assert_eq!(provider.effective_model(), "gpt-5.6-sol");
    provider.model_override = Some("  ".into());
    assert_eq!(provider.effective_model(), "gpt-5.6-sol");
    provider.model_override = Some("gpt-5.4".into());
    assert_eq!(provider.effective_model(), "gpt-5.4");
}

#[test]
fn first_failure_does_not_trigger_cooldown() {
    let mut provider = provider();
    let now = now();
    provider.consecutive_failures = 1;
    provider.apply_cooldown(60, now);
    assert!(!provider.in_cooldown(now));
}

#[test]
fn cooldown_backs_off_and_is_capped() {
    let now = now();
    let mut provider = provider();
    provider.consecutive_failures = 2;
    provider.apply_cooldown(60, now);
    assert_eq!(provider.cooldown_until.unwrap().seconds - now.seconds, 60);

    provider.consecutive_failures = 4;
    provider.apply_cooldown(60, now);
    assert_eq!(provider.cooldown_until.unwrap().seconds - now.seconds, 240);

    provider.consecutive_failures = 99;
    provider.apply_cooldown(60, now);
    assert_eq!(provider.cooldown_until.unwrap().seconds - now.seconds, 900);

    provider.clear_cooldown();
    assert!(!provider.in_cooldown(now));
    assert_eq!(provider.consecutive_failures, 0);
}

#[test]
fn health_history_stays_bounded() {
    let mut provider = provider();
    for _ in 0..HEALTH_HISTORY_LIMIT + 8 {
        provider.record_health(true, Some(10), now());
    }
    assert_eq!(provider.health_history.len(), HEALTH_HISTORY_LIMIT);
}

#[test]
fn defaults_keep_streams_alive_longer_than_probes() {
    let settings = AppSettings::default();
    assert!(settings.stream_idle_timeout_seconds > settings.request_timeout_seconds);
    assert!(settings.upstream_keep_alive);
}

#[test]
fn history_keeps_the_newest_samples_in_order() {
    let mut provider = provider();
    for second in 0..25i64 {
        provider.record_health(second % 2 == 0, None, Moment { seconds: second, nanos: 0 });
    }
    assert_eq!(provider.health_history.first().unwrap().at.seconds, 5);
    assert_eq!(provider.health_history.last().unwrap().at.seconds, 24);
    assert!(provider.health_history.last().unwrap().ok);
}

#[test]
fn cooldown_can_be_switched_off_and_saturates() {
    let at = Moment { seconds: 1_000, nanos: 7 };
    let mut provider = provider();
    provider.consecutive_failures = 9;
    provider.apply_cooldown(0, at);
    assert_eq!(provider.cooldown_until, None);
    provider.apply_cooldown(u64::MAX, at);
    assert_eq!(provider.cooldown_until, Some(Moment { seconds: 1_900, nanos: 7 }));
    assert!(provider.in_cooldown(Moment { seconds: 1_899, nanos: 999_999_999 }));
    assert!(!provider.in_cooldown(Moment { seconds: 1_900, nanos: 7 }));
}

#[test]
fn cooldown_doubles_up_to_the_limit() {
    let at = Moment { seconds: 0, nanos: 0 };
    let mut provider = provider();
    let mut seen = Vec::new();
    for failures in [0, 1, 2, 3, 4, 7, 8, 9, u32::MAX] {
        provider.consecutive_failures = failures;
        provider.apply_cooldown(10, at);
        seen.push(provider.cooldown_until.map(|until| until.seconds));
    }
    assert_eq!(seen, vec![None, None, Some(10), Some(20), Some(40), Some(320), Some(640), Some(900), Some(900)]);
}

#[test]
fn models_are_known_in_letters_of_any_case() {
    let provider = provider();
    assert!(provider.knows_model("GPT-5.6-Sol"));
    assert!(!provider.knows_model("gpt-5.6"));
}

#[test]
fn only_enabled_providers_with_a_key_are_routable() {
    let mut config = AppConfig::default();
    assert!(config.providers.is_empty());
    config.providers.push(provider());
    let mut off = provider();
    off.enabled = false;
    off.id = "off".into();
    config.providers.push(off);
    let mut keyless = provider();
    keyless.api_key = None;
    config.providers.push(keyless);
    let ids: Vec<&str> = config.routable().iter().map(|p| p.id.as_str()).collect();
    assert_eq!(ids, vec!["id"]);
    assert_eq!(config.clone().providers.len(), 3);
}

#[test]
fn default_settings_have_a_fresh_key() {
    let settings = AppSettings::default();
    assert_eq!(settings.gateway_port, 1455);
    assert_eq!(settings.max_failover_attempts, 3);
    assert_eq!(settings.cooldown_seconds, 60);
    assert_eq!(settings.route_strategy, RouteStrategy::default());
    assert!(settings.local_access_key.starts_with("rd_local_"));
    assert_eq!(settings.local_access_key.len(), 9 + 32);
    assert_ne!(fresh_access_key(), fresh_access_key());
}

#[test]
fn identifiers_have_the_shape_of_random_uuids() {
    let id = fresh_id();
    let groups: Vec<usize> = id.split('-').map(|group| group.len()).collect();
    assert_eq!(groups, vec![8, 4, 4, 4, 12]);
    assert_eq!(id.as_bytes()[14], b'4');
    assert!(id.chars().all(|c| c == '-' || c.is_ascii_digit() || ('a'..='f').contains(&c)));
    let key = fresh_access_key();
    assert_eq!(key.as_bytes()[9 + 12], b'4');
}

#[test]
fn empty_reports_say_nothing() {
    let status = CodexStatus::default();
    assert!(!status.configured && !status.stale && status.configured_port.is_none());
    let repair = SessionRepairResult::default();
    assert_eq!((repair.restored, repair.removed_ghosts, repair.aligned_threads), (0, 0, 0));
    assert!(repair.backup_path.is_none() && repair.db_backup_path.is_none());
    let session = CodexSession::default();
    assert!(session.id.is_empty() && session.updated_at.is_none() && !session.indexed && !session.archived);
    let snapshot = SessionOverview::default();
    assert!(snapshot.sessions.is_empty() && snapshot.active_provider.is_none());
    assert_eq!((snapshot.total_bytes, snapshot.orphan_count, snapshot.ghost_count), (0, 0, 0));
    assert_eq!(snapshot.scanned_at, Moment { seconds: 0, nanos: 0 });
}

#[test]
fn times_are_read_and_written() {
    let at = parse_time("2026-07-23T13:59:02.830446Z").unwrap();
    assert_eq!(at, Moment { seconds: 1_784_815_142, nanos: 830_446_000 });
    assert_eq!(time_text(at), "2026-07-23T13:59:02.830446Z");
    assert_eq!(parse_time("2026-07-23T15:59:02.830446+02:00"), Some(at));
    assert_eq!(parse_time("yesterday"), None);
    let exact = Moment { seconds: 0, nanos: 123_456_789 };
    assert_eq!(time_text(exact), "1970-01-01T00:00:00.123456Z");
    assert_eq!(parse_time(&time_text(exact)), Some(Moment { seconds: 0, nanos: 123_456_000 }));
}

#[test]
fn leap_seconds_are_left_behind() {
    let mut provider = provider();
    provider.consecutive_failures = 2;
    provider.apply_cooldown(1, Moment { seconds: 1_483_228_799, nanos: 1_500_000_000 });
    assert_eq!(provider.cooldown_until, Some(Moment { seconds: 1_483_228_800, nanos: 500_000_000 }));
}

#[test]
fn errors_say_where_they_come_from() {
    assert_eq!(RelayError::Io("gone".into()).message(), "file operation failed: gone");
    assert_eq!(RelayError::Json("bad".into()).message(), "invalid config: bad");
    assert_eq!(RelayError::Keyring("locked".into()).message(), "credential store failed: locked");
    assert_eq!(RelayError::Http("down".into()).message(), "HTTP client failed: down");
    assert_eq!(RelayError::Database("busy".into()).message(), "Codex 数据库操作失败: busy");
    assert_eq!(relaydeck::error::command_error(RelayError::InvalidInput("no".into())), "no");
}

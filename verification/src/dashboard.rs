//! The figures that the dashboard shows.

use crate::clock::Moment;
use crate::exchange::GatewayMetrics;
use crate::models::{AppConfig, GatewayStatus, ProviderView, RequestLog};
use crate::order;
use crate::providers;
use std::collections::VecDeque;
use vstd::prelude::*;

verus! {

/// The average time of a request, in whole milliseconds; 0 before the first one.
pub open spec fn average_of(metrics: GatewayMetrics) -> u64 {
    if metrics.requests == 0 {
        0
    } else {
        metrics.total_latency_ms / metrics.requests
    }
}

/// The average time of a request, in whole milliseconds.
pub fn average_latency(metrics: &GatewayMetrics) -> (average: u64)
    ensures
        average == average_of(*metrics),
{
    if metrics.requests == 0 {
        0
    } else {
        metrics.total_latency_ms / metrics.requests
    }
}

/// A point in time as a count of seconds since 1970; 0 for any time before.
pub open spec fn epoch_seconds(now: Moment) -> nat {
    if now.seconds < 0 {
        0
    } else {
        now.seconds as nat
    }
}

/// For how long the gateway has been running.
pub open spec fn uptime_of(metrics: GatewayMetrics, running: bool, now: Moment) -> nat {
    if !running || metrics.started_at == 0 || epoch_seconds(now) < metrics.started_at {
        0
    } else {
        (epoch_seconds(now) - metrics.started_at) as nat
    }
}

fn seconds_of(now: Moment) -> (seconds: u64)
    ensures
        seconds == epoch_seconds(now),
{
    if now.seconds < 0 {
        0
    } else {
        now.seconds as u64
    }
}

/// For how long the gateway has been running, in seconds.
pub fn uptime_seconds(metrics: &GatewayMetrics, running: bool, now: Moment) -> (seconds: u64)
    ensures
        seconds == uptime_of(*metrics, running, now),
{
    if !running || metrics.started_at == 0 {
        return 0;
    }
    let present: u64 = seconds_of(now);
    if present < metrics.started_at {
        0
    } else {
        present - metrics.started_at
    }
}

/// Remembers when the gateway was started.
pub fn mark_started(metrics: &mut GatewayMetrics, now: Moment)
    ensures
        *final(metrics) == (GatewayMetrics { started_at: epoch_seconds(now) as u64, ..*old(metrics) }),
{
    metrics.started_at = seconds_of(now);
}

/// Remembers that the gateway is stopped.
pub fn mark_stopped(metrics: &mut GatewayMetrics)
    ensures
        *final(metrics) == (GatewayMetrics { started_at: 0, ..*old(metrics) }),
{
    metrics.started_at = 0;
}

/// The providers that could serve traffic now.
pub open spec fn active_of(list: Seq<ProviderView>, now: Moment) -> Seq<ProviderView> {
    crate::models::routable_of(list).filter(|p: ProviderView| !p.in_cooldown(now))
}

/// The providers that could serve traffic but for a pause.
pub open spec fn paused_of(list: Seq<ProviderView>, now: Moment) -> Seq<ProviderView> {
    crate::models::routable_of(list).filter(|p: ProviderView| p.in_cooldown(now))
}

/// The gateway as the dashboard shows it.
pub fn status_from(config: &AppConfig, metrics: &GatewayMetrics, running: bool, now: Moment) -> (status: GatewayStatus)
    ensures
        status.running == running,
        status.host@ == "127.0.0.1"@,
        status.port == config.settings.gateway_port,
        status.request_count == metrics.requests,
        status.success_count == metrics.successes,
        status.failed_count == metrics.failures,
        status.failover_count == metrics.failovers,
        status.active_connections == metrics.active_connections,
        status.average_latency_ms == average_of(*metrics),
        status.input_bytes == metrics.input_bytes,
        status.output_bytes == metrics.output_bytes,
        status.uptime_seconds == uptime_of(*metrics, running, now),
        status.strategy == config.settings.route_strategy,
        status.routable_count == active_of(config@.providers, now).len(),
        status.cooldown_count == paused_of(config@.providers, now).len(),
{
    let ghost is_active = |p: ProviderView| !p.in_cooldown(now);
    let ghost is_paused = |p: ProviderView| p.in_cooldown(now);
    let routable = config.routable();
    let ghost all = routable.deep_view();
    let mut active: usize = 0;
    let mut paused: usize = 0;
    let mut i: usize = 0;
    proof {
        reveal(Seq::filter);
        assert(all.take(0).filter(is_active).len() == 0);
        assert(all.take(0).filter(is_paused).len() == 0);
    }
    while i < routable.len()
        invariant
            is_active == (|p: ProviderView| !p.in_cooldown(now)),
            is_paused == (|p: ProviderView| p.in_cooldown(now)),
            all == routable.deep_view(),
            i <= routable@.len(),
            active == all.take(i as int).filter(is_active).len(),
            paused == all.take(i as int).filter(is_paused).len(),
            active + paused == i,
        decreases routable@.len() - i,
    {
        proof {
            assert(all[i as int] == routable@[i as int]@);
            assert(all.take(i + 1) =~= all.take(i as int).push(all[i as int]));
            order::lemma_filter_push(all.take(i as int), is_active, all[i as int]);
            order::lemma_filter_push(all.take(i as int), is_paused, all[i as int]);
        }
        if routable[i].in_cooldown(now) {
            paused = paused + 1;
        } else {
            active = active + 1;
        }
        i = i + 1;
    }
    assert(all.take(i as int) =~= all);
    GatewayStatus {
        running,
        host: "127.0.0.1".to_owned(),
        port: config.settings.gateway_port,
        request_count: metrics.requests,
        success_count: metrics.successes,
        failed_count: metrics.failures,
        failover_count: metrics.failovers,
        active_connections: metrics.active_connections,
        average_latency_ms: average_latency(metrics),
        input_bytes: metrics.input_bytes,
        output_bytes: metrics.output_bytes,
        uptime_seconds: uptime_seconds(metrics, running, now),
        strategy: config.settings.route_strategy,
        routable_count: active,
        cooldown_count: paused,
    }
}

/// Empties the log and starts counting anew. Requests under way and the time of the start are no
/// history and stay.
pub fn clear_logs(logs: &mut VecDeque<RequestLog>, metrics: &mut GatewayMetrics, config: &mut AppConfig)
    ensures
        final(logs)@ == Seq::<RequestLog>::empty(),
        *final(metrics) == (GatewayMetrics {
            requests: 0,
            successes: 0,
            failures: 0,
            failovers: 0,
            active_connections: old(metrics).active_connections,
            total_latency_ms: 0,
            input_bytes: 0,
            output_bytes: 0,
            started_at: old(metrics).started_at,
        }),
        final(config)@.providers == old(config)@.providers.map_values(
            |p: ProviderView| ProviderView { served_count: 0, failed_count: 0, ..p },
        ),
        final(config).settings == old(config).settings,
{
    logs.clear();
    metrics.requests = 0;
    metrics.successes = 0;
    metrics.failures = 0;
    metrics.failovers = 0;
    metrics.total_latency_ms = 0;
    metrics.input_bytes = 0;
    metrics.output_bytes = 0;
    providers::reset_counts(config);
}

// ------------------------------------------------------------------------------------ laws
/// Every provider that could serve traffic is counted once: as active or as paused.
pub proof fn law_every_routable_provider_is_counted(list: Seq<ProviderView>, now: Moment)
    ensures
        active_of(list, now).len() + paused_of(list, now).len() == crate::models::routable_of(list).len(),
{
    lemma_split(crate::models::routable_of(list), now);
}

proof fn lemma_split(s: Seq<ProviderView>, now: Moment)
    ensures
        s.filter(|p: ProviderView| !p.in_cooldown(now)).len() + s.filter(|p: ProviderView| p.in_cooldown(now)).len()
            == s.len(),
    decreases s.len(),
{
    reveal(Seq::filter);
    if s.len() > 0 {
        lemma_split(s.drop_last(), now);
    }
}

/// The average never exceeds the total, and the gateway has no uptime while it is stopped.
pub proof fn law_figures_are_plausible(metrics: GatewayMetrics, now: Moment)
    ensures
        average_of(metrics) <= metrics.total_latency_ms,
        uptime_of(metrics, false, now) == 0,
        uptime_of(metrics, true, now) <= epoch_seconds(now),
{
    if metrics.requests > 0 {
        vstd::arithmetic::div_mod::lemma_div_is_ordered_by_denominator(
            metrics.total_latency_ms as int,
            1,
            metrics.requests as int,
        );
    }
}

/// The average is what every request took if all had taken the same, in whole milliseconds, and nothing
/// where there was none. The gateway runs since it was started, and not at all where it does not run.
pub proof fn law_averages_and_uptime(metrics: GatewayMetrics, running: bool, now: Moment)
    ensures
        metrics.requests == 0 ==> average_of(metrics) == 0,
        metrics.requests > 0 ==> average_of(metrics) * metrics.requests <= metrics.total_latency_ms < (average_of(metrics)
            + 1) * metrics.requests,
        running && metrics.started_at > 0 && now.seconds >= metrics.started_at ==> uptime_of(metrics, running, now)
            == now.seconds - metrics.started_at,
        !running || metrics.started_at == 0 || now.seconds < metrics.started_at ==> uptime_of(metrics, running, now) == 0,
        now.seconds >= 0 ==> epoch_seconds(now) == now.seconds,
{
    if metrics.requests > 0 {
        let (t, n) = (metrics.total_latency_ms as int, metrics.requests as int);
        vstd::arithmetic::div_mod::lemma_fundamental_div_mod(t, n);
        vstd::arithmetic::div_mod::lemma_mod_bound(t, n);
        let q = t / n;
        assert(q * n <= t < (q + 1) * n) by (nonlinear_arith)
            requires
                t == n * q + t % n,
                0 <= t % n < n,
        ;
        assert(average_of(metrics) == q);
    }
}

/// A provider counts as routable where it is switched on, has a key and is not paused, and as cooling where
/// it is all that but paused.
pub proof fn law_providers_are_counted_by_their_pause(list: Seq<ProviderView>, now: Moment, p: ProviderView)
    ensures
        active_of(list, now).contains(p) <==> list.contains(p) && p.enabled && p.api_key is Some && !(
        p.cooldown_until matches Some(until) && (until.seconds > now.seconds || (until.seconds == now.seconds
            && until.nanos > now.nanos))),
        paused_of(list, now).contains(p) <==> list.contains(p) && p.enabled && p.api_key is Some && (
        p.cooldown_until matches Some(until) && (until.seconds > now.seconds || (until.seconds == now.seconds
            && until.nanos > now.nanos))),
{
    let routable = crate::models::routable_of(list);
    let is_active = |q: ProviderView| !q.in_cooldown(now);
    let is_paused = |q: ProviderView| q.in_cooldown(now);
    crate::models::law_routable_providers_are_enabled_with_a_key(list, p);
    crate::order::lemma_filter_members(routable, is_active);
    crate::order::lemma_filter_members(routable, is_paused);
    if active_of(list, now).contains(p) {
        let k = choose|k: int| 0 <= k < active_of(list, now).len() && active_of(list, now)[k] == p;
        assert(is_active(active_of(list, now)[k]));
    }
    if paused_of(list, now).contains(p) {
        let k = choose|k: int| 0 <= k < paused_of(list, now).len() && paused_of(list, now)[k] == p;
        assert(is_paused(paused_of(list, now)[k]));
    }
    if routable.contains(p) {
        let k = choose|k: int| 0 <= k < routable.len() && routable[k] == p;
        assert(is_active(routable[k]) || is_paused(routable[k]));
    }
}

} // verus!

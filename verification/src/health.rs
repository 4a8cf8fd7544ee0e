//! Probing providers and folding the results into what is known of them.

use crate::clock::Moment;
use crate::discovery::{Finding, FindingView};
use crate::gateway::{self, join_url};
use crate::models::{AppConfig, AppSettings, HealthSample, Provider, ProviderStatus, ProviderView};
use crate::providers;
use vstd::prelude::*;

verus! {

// -------------------------------------------------------------------------- one provider
/// Marks a provider as being probed and hands it out.
pub fn begin_check(config: &mut AppConfig, id: &str) -> (r: Result<Provider, String>)
    ensures
        r is Ok <==> providers::find_id(old(config)@.providers, id@) is Some,
        r matches Ok(provider) ==> providers::existing_of(final(config)@.providers, id@) == Some(provider@),
        r matches Err(message) ==> message@ == "Provider 不存在"@,
        final(config)@.providers == providers::changed(
            old(config)@.providers,
            id@,
            |p: ProviderView| ProviderView { status: ProviderStatus::Checking, ..p },
        ),
        final(config).settings == old(config).settings,
        r matches Ok(provider) ==> (providers::existing_of(old(config)@.providers, id@) matches Some(before) && provider@
            == (ProviderView { status: ProviderStatus::Checking, ..before })),
{
    let ghost list = config@.providers;
    let ghost change = |p: ProviderView| ProviderView { status: ProviderStatus::Checking, ..p };
    match providers::position(&config.providers, id) {
        Some(at) => {
            config.providers[at].status = ProviderStatus::Checking;
            proof {
                assert(config@.providers =~= list.update(at as int, change(list[at as int])));
                providers::lemma_change_keeps_place(list, id@, change);
            }
            Ok(config.providers[at].clone())
        },
        None => Err("Provider 不存在".to_owned()),
    }
}

/// Where a request of a check goes, and the key that it shows.
#[derive(Debug)]
pub struct CheckCall {
    pub url: String,
    pub bearer: String,
}

/// The key that a check shows: that of the provider, or an empty one where it has none.
pub open spec fn bearer_of(p: ProviderView) -> Seq<char> {
    match p.api_key {
        Some(key) => key,
        None => Seq::empty(),
    }
}

fn call(provider: &Provider, path: &str) -> (call: CheckCall)
    ensures
        call.url@ == gateway::joined_url(provider@.base_url, path@),
        call.bearer@ == bearer_of(provider@),
{
    let bearer = match &provider.api_key {
        Some(key) => key.clone(),
        None => String::new(),
    };
    CheckCall { url: join_url(provider.base_url.as_str(), path), bearer }
}

/// How a provider is asked for its models.
pub fn models_call(provider: &Provider) -> (call: CheckCall)
    ensures
        call.url@ == gateway::joined_url(provider@.base_url, "/v1/models"@),
        call.bearer@ == bearer_of(provider@),
{
    call(provider, "/v1/models")
}

/// How a provider is sent a probe.
pub fn probe_call(provider: &Provider) -> (call: CheckCall)
    ensures
        call.url@ == gateway::joined_url(provider@.base_url, "/v1/responses"@),
        call.bearer@ == bearer_of(provider@),
{
    call(provider, "/v1/responses")
}

/// The model that an upstream is asked for after it listed its models: none where the check is to cost
/// nothing.
pub open spec fn probed_model(finding: FindingView, deep_probe: bool) -> Option<Seq<char>> {
    match finding {
        FindingView::Listed(model, _) => if deep_probe {
            Some(model)
        } else {
            None
        },
        _ => None,
    }
}

/// The model that an upstream is asked for after it listed its models, if it is asked for one.
pub fn model_to_probe(finding: &Finding, deep_probe: bool) -> (model: Option<&str>)
    ensures
        model.deep_view() == probed_model(finding@, deep_probe),
{
    match finding {
        Finding::Listed(model, _) => if deep_probe {
            Some(model.as_str())
        } else {
            None
        },
        Finding::Faulty(_) => None,
        Finding::Unreachable(_) => None,
    }
}

/// What a probe showed, apart from the record of earlier ones. `problem` is what was wrong with the
/// answer of the chosen model, if it was asked and something was.
pub open spec fn observed(
    p: ProviderView,
    finding: FindingView,
    problem: Option<Seq<char>>,
    latency_ms: u64,
    at: Moment,
) -> ProviderView {
    match finding {
        FindingView::Listed(model, models) => ProviderView {
            model,
            available_models: models,
            latency_ms: Some(latency_ms),
            status: if problem is None {
                ProviderStatus::Healthy
            } else {
                ProviderStatus::Unhealthy
            },
            last_error: problem,
            last_checked_at: Some(at),
            ..p
        },
        FindingView::Faulty(message) => ProviderView {
            latency_ms: Some(latency_ms),
            status: ProviderStatus::Unhealthy,
            last_error: Some(message),
            last_checked_at: Some(at),
            ..p
        },
        FindingView::Unreachable(message) => ProviderView {
            latency_ms: None,
            status: ProviderStatus::Unhealthy,
            last_error: Some(message),
            last_checked_at: Some(at),
            ..p
        },
    }
}

/// A provider with one more failed probe in a row.
pub open spec fn failed_again(p: ProviderView) -> ProviderView {
    ProviderView {
        consecutive_failures: if p.consecutive_failures == u32::MAX {
            u32::MAX
        } else {
            (p.consecutive_failures + 1) as u32
        },
        ..p
    }
}

/// A provider after a probe, with its record.
pub open spec fn checked(
    p: ProviderView,
    finding: FindingView,
    problem: Option<Seq<char>>,
    latency_ms: u64,
    at: Moment,
    base: nat,
) -> ProviderView {
    let seen = observed(p, finding, problem, latency_ms, at);
    let ok = seen.status == ProviderStatus::Healthy;
    let sampled = seen.with_sample((HealthSample { at, ok, latency_ms: seen.latency_ms }));
    if ok {
        sampled.without_cooldown()
    } else {
        failed_again(sampled).with_cooldown(base, at)
    }
}

/// Where the probe fails, the pause that it earns ends within the calendar.
pub open spec fn check_fits(p: ProviderView, finding: FindingView, problem: Option<Seq<char>>, at: Moment, base: nat) -> bool {
    (finding is Listed && problem is None) || failed_again(p).can_cool(base, at)
}

/// Folds what a probe showed into a provider, and stores the provider under its identifier where
/// there still is one.
pub fn finish_check(
    config: &mut AppConfig,
    id: &str,
    provider: Provider,
    finding: Finding,
    problem: Option<String>,
    latency_ms: u64,
    checked_at: Moment,
) -> (updated: Provider)
    requires
        check_fits(
            provider@,
            finding@,
            problem.deep_view(),
            checked_at,
            old(config).settings.cooldown_seconds as nat,
        ),
    ensures
        updated@ == checked(
            provider@,
            finding@,
            problem.deep_view(),
            latency_ms,
            checked_at,
            old(config).settings.cooldown_seconds as nat,
        ),
        final(config)@.providers == providers::changed(old(config)@.providers, id@, |p: ProviderView| updated@),
        final(config).settings == old(config).settings,
{
    let ghost seen = observed(provider@, finding@, problem.deep_view(), latency_ms, checked_at);
    let mut updated = provider;
    updated.last_checked_at = Some(checked_at);
    match finding {
        Finding::Listed(model, models) => {
            updated.model = model;
            updated.available_models = models;
            updated.latency_ms = Some(latency_ms);
            updated.status = if problem.is_none() {
                ProviderStatus::Healthy
            } else {
                ProviderStatus::Unhealthy
            };
            updated.last_error = problem;
        },
        Finding::Faulty(message) => {
            updated.status = ProviderStatus::Unhealthy;
            updated.latency_ms = Some(latency_ms);
            updated.last_error = Some(message);
        },
        Finding::Unreachable(message) => {
            updated.status = ProviderStatus::Unhealthy;
            updated.latency_ms = None;
            updated.last_error = Some(message);
        },
    }
    assert(updated@ == seen);
    let healthy = updated.status == ProviderStatus::Healthy;
    let latency = updated.latency_ms;
    updated.record_health(healthy, latency, checked_at);
    if healthy {
        updated.clear_cooldown();
    } else {
        updated.consecutive_failures = updated.consecutive_failures.saturating_add(1);
        updated.apply_cooldown(config.settings.cooldown_seconds, checked_at);
    }
    match providers::position(&config.providers, id) {
        Some(at) => {
            config.providers[at] = updated.clone();
            assert(config@.providers =~= old(config)@.providers.update(at as int, updated@));
        },
        None => {},
    }
    updated
}

// ------------------------------------------------------------------------- all providers
/// Health probes run a few at a time so a long provider list still finishes quickly.
pub const HEALTH_CONCURRENCY: usize = 4;

/// The identifiers of the providers that are switched on.
pub open spec fn enabled_ids_of(list: Seq<ProviderView>) -> Seq<Seq<char>>
    decreases list.len(),
{
    if list.len() == 0 {
        Seq::empty()
    } else if list.last().enabled {
        enabled_ids_of(list.drop_last()).push(list.last().id)
    } else {
        enabled_ids_of(list.drop_last())
    }
}

/// The identifiers of the providers that a sweep probes.
pub fn enabled_ids(config: &AppConfig) -> (ids: Vec<String>)
    ensures
        ids.deep_view() == enabled_ids_of(config@.providers),
{
    let ghost all = config@.providers;
    let mut ids: Vec<String> = Vec::new();
    let mut i: usize = 0;
    proof {
        assert(ids.deep_view() =~= enabled_ids_of(all.take(0)));
    }
    while i < config.providers.len()
        invariant
            all == config.providers.deep_view(),
            i <= config.providers@.len(),
            ids.deep_view() == enabled_ids_of(all.take(i as int)),
        decreases config.providers@.len() - i,
    {
        let ghost before = ids.deep_view();
        proof {
            assert(all.take(i + 1).drop_last() =~= all.take(i as int));
            assert(all.take(i + 1).last() == config.providers@[i as int]@);
        }
        if config.providers[i].enabled {
            ids.push(config.providers[i].id.clone());
            assert(ids.deep_view() =~= before.push(config.providers@[i as int]@.id));
        }
        i = i + 1;
    }
    assert(all.take(i as int) =~= all);
    ids
}

/// The identifiers in batches that are probed together: as many as run at a time, the last batch
/// perhaps fewer.
pub open spec fn batches_of(ids: Seq<Seq<char>>) -> Seq<Seq<Seq<char>>>
    decreases ids.len(),
{
    if ids.len() == 0 {
        Seq::empty()
    } else if ids.len() <= HEALTH_CONCURRENCY {
        seq![ids]
    } else {
        seq![ids.take(HEALTH_CONCURRENCY as int)] + batches_of(ids.skip(HEALTH_CONCURRENCY as int))
    }
}

/// The identifiers in batches that are probed together.
pub fn batches(ids: &Vec<String>) -> (r: Vec<Vec<String>>)
    ensures
        r.deep_view() == batches_of(ids.deep_view()),
{
    let ghost all = ids.deep_view();
    let mut r: Vec<Vec<String>> = Vec::new();
    let mut from: usize = 0;
    proof {
        assert(all.skip(0) =~= all);
        assert(r.deep_view() + batches_of(all) =~= batches_of(all));
    }
    while from < ids.len()
        invariant
            all == ids.deep_view(),
            from <= ids@.len(),
            r.deep_view() + batches_of(all.skip(from as int)) == batches_of(all),
        decreases ids@.len() - from,
    {
        let left: usize = ids.len() - from;
        let count: usize = if left < HEALTH_CONCURRENCY {
            left
        } else {
            HEALTH_CONCURRENCY
        };
        let ghost rest = all.skip(from as int);
        let ghost done = r.deep_view();
        let mut batch: Vec<String> = Vec::new();
        let mut i: usize = 0;
        while i < count
            invariant
                all == ids.deep_view(),
                rest == all.skip(from as int),
                from + count <= ids.len(),
                i <= count,
                batch.deep_view() == rest.take(i as int),
            decreases count - i,
        {
            let ghost some = batch.deep_view();
            batch.push(ids[from + i].clone());
            i = i + 1;
            proof {
                assert(batch.deep_view() =~= some.push(rest[i - 1]));
                assert(rest.take(i as int) =~= rest.take(i - 1).push(rest[i - 1]));
            }
        }
        let ghost next = batch.deep_view();
        r.push(batch);
        from = from + count;
        proof {
            assert(r.deep_view() =~= done.push(next));
            assert(all.skip(from as int) =~= rest.skip(count as int));
            if rest.len() <= HEALTH_CONCURRENCY {
                assert(next =~= rest);
                assert(batches_of(all.skip(from as int)) =~= Seq::<Seq<Seq<char>>>::empty());
                assert(r.deep_view() + batches_of(all.skip(from as int)) =~= done + seq![rest]);
            } else {
                assert(r.deep_view() + batches_of(all.skip(from as int)) =~= done + (seq![next] + batches_of(
                    rest.skip(count as int),
                )));
            }
        }
    }
    proof {
        assert(r.deep_view() + batches_of(all.skip(from as int)) =~= r.deep_view());
    }
    r
}

/// Some provider is paused.
pub open spec fn any_paused(list: Seq<ProviderView>, now: Moment) -> bool {
    exists|i: int| 0 <= i < list.len() && (#[trigger] list[i]).in_cooldown(now)
}

/// Whether some provider is paused.
pub fn any_cooling(config: &AppConfig, now: Moment) -> (r: bool)
    ensures
        r == any_paused(config@.providers, now),
{
    let ghost all = config@.providers;
    let mut i: usize = 0;
    while i < config.providers.len()
        invariant
            all == config.providers.deep_view(),
            i <= config.providers@.len(),
            forall|k: int| 0 <= k < i ==> !(#[trigger] all[k]).in_cooldown(now),
        decreases config.providers@.len() - i,
    {
        if config.providers[i].in_cooldown(now) {
            assert(all[i as int].in_cooldown(now));
            return true;
        }
        i = i + 1;
    }
    false
}

/// Re-probe interval while any provider is cooling down, so recovery is not stuck behind a long cycle.
pub const RECOVERY_SECONDS: u64 = 30;

/// How long to wait until the next sweep.
pub open spec fn wait_of(interval_minutes: nat, cooling: bool) -> nat {
    let minutes: nat = if interval_minutes < 1 {
        1
    } else if interval_minutes > 120 {
        120
    } else {
        interval_minutes
    };
    if cooling {
        RECOVERY_SECONDS as nat
    } else {
        minutes * 60
    }
}

/// How long to wait until the next sweep, in seconds.
pub fn health_wait(settings: &AppSettings, cooling: bool) -> (seconds: u64)
    ensures
        seconds == wait_of(settings.health_interval_minutes as nat, cooling),
{
    let minutes: u64 = if settings.health_interval_minutes < 1 {
        1
    } else if settings.health_interval_minutes > 120 {
        120
    } else {
        settings.health_interval_minutes
    };
    let interval: u64 = minutes * 60;
    if cooling && RECOVERY_SECONDS < interval {
        RECOVERY_SECONDS
    } else {
        interval
    }
}

// ------------------------------------------------------------------------------------ laws
/// After a probe a provider is healthy exactly when it listed models and nothing was wrong with the
/// answer of the chosen one; then no error is left, and it is not paused.
pub proof fn law_probes_decide_health(
    p: ProviderView,
    finding: FindingView,
    problem: Option<Seq<char>>,
    latency_ms: u64,
    at: Moment,
    base: nat,
)
    ensures
        ({
            let after = checked(p, finding, problem, latency_ms, at, base);
            &&& after.status == ProviderStatus::Healthy <==> finding is Listed && problem is None
            &&& after.status == ProviderStatus::Healthy || after.status == ProviderStatus::Unhealthy
            &&& after.last_error is None <==> after.status == ProviderStatus::Healthy
            &&& after.status == ProviderStatus::Healthy ==> !after.in_cooldown(at) && after.consecutive_failures == 0
            &&& after.health_history.last() == (HealthSample {
                at,
                ok: after.status == ProviderStatus::Healthy,
                latency_ms: after.latency_ms,
            })
            &&& after.health_history.len() <= crate::models::HEALTH_HISTORY_LIMIT
        }),
{
}

/// A provider whose probe succeeds is back among the ready ones at once, however it stood before.
pub proof fn law_recovered_providers_return(
    p: ProviderView,
    finding: FindingView,
    latency_ms: u64,
    at: Moment,
    settings: AppSettings,
    now: Moment,
)
    requires
        finding is Listed,
    ensures
        !crate::routing::is_sidelined(
            checked(p, finding, None, latency_ms, at, settings.cooldown_seconds as nat),
            settings,
            now,
        ),
{
}

/// A periodic check costs nothing: no model is asked for anything.
pub proof fn law_periodic_checks_ask_no_model(finding: FindingView)
    ensures
        probed_model(finding, false) is None,
{
}

/// A probe that fails leaves the list of models and the model in use as they were, unless the
/// upstream has just listed others; what the user chose is never touched.
pub proof fn law_failed_probes_keep_the_models(
    p: ProviderView,
    finding: FindingView,
    problem: Option<Seq<char>>,
    latency_ms: u64,
    at: Moment,
    base: nat,
)
    ensures
        ({
            let after = checked(p, finding, problem, latency_ms, at, base);
            &&& finding !is Listed ==> after.model == p.model && after.available_models == p.available_models
            &&& after.model_override == p.model_override
            &&& after.priority == p.priority
            &&& after.enabled == p.enabled
            &&& after.api_key == p.api_key
        }),
{
}

/// The batches of a sweep hold every identifier once and in order, and none is larger than the
/// number of probes that run at a time.
pub proof fn law_batches_cover_everything(ids: Seq<Seq<char>>)
    ensures
        batches_of(ids).flatten() == ids,
        forall|i: int| 0 <= i < batches_of(ids).len() ==> 1 <= (#[trigger] batches_of(ids)[i]).len() <= HEALTH_CONCURRENCY,
    decreases ids.len(),
{
    if ids.len() > HEALTH_CONCURRENCY {
        let rest = ids.skip(HEALTH_CONCURRENCY as int);
        let first = ids.take(HEALTH_CONCURRENCY as int);
        law_batches_cover_everything(rest);
        let all = seq![first] + batches_of(rest);
        assert(all.first() == first);
        assert(all.drop_first() =~= batches_of(rest));
        assert(all.flatten() =~= first + rest);
        assert(first + rest =~= ids);
    } else if ids.len() > 0 {
        let all = seq![ids];
        assert(all.first() == ids);
        assert(all.drop_first() =~= Seq::<Seq<Seq<char>>>::empty());
        assert(all.drop_first().flatten() =~= Seq::<Seq<char>>::empty());
        assert(all.flatten() =~= ids);
    } else {
        assert(batches_of(ids).flatten() =~= ids);
    }
}

/// While a provider is paused, the next sweep is never further away than at other times, nor than
/// half a minute; otherwise it is between one minute and two hours away.
pub proof fn law_recovery_is_checked_soon(interval_minutes: nat)
    ensures
        wait_of(interval_minutes, true) <= 30,
        wait_of(interval_minutes, true) <= wait_of(interval_minutes, false),
        60 <= wait_of(interval_minutes, false) <= 7200,
{
}

/// What a check leaves of a provider. Listed models are taken over, with the one for Codex, and with the time
/// that it took; one at fault keeps its models and has its time taken; one that cannot be reached has none.
/// It is healthy where models were listed and the probe, if any, was passed: then its failures are forgotten.
/// Otherwise they are one more, and word is left of what was wrong. Nothing else changes.
pub proof fn law_checks_are_recorded(
    p: ProviderView,
    finding: FindingView,
    problem: Option<Seq<char>>,
    latency_ms: u64,
    at: Moment,
    base: nat,
)
    requires
        p.consecutive_failures < u32::MAX,
    ensures
        ({
            let after = checked(p, finding, problem, latency_ms, at, base);
            let ok = finding is Listed && problem is None;
            &&& finding matches FindingView::Listed(model, models) ==> after.model == model && after.available_models
                == models && after.last_error == problem
            &&& finding matches FindingView::Faulty(message) ==> after.last_error == Some(message)
            &&& finding matches FindingView::Unreachable(message) ==> after.last_error == Some(message)
            &&& after.latency_ms == if finding is Unreachable {
                None
            } else {
                Some(latency_ms)
            }
            &&& after.last_checked_at == Some(at)
            &&& after.status == if ok {
                ProviderStatus::Healthy
            } else {
                ProviderStatus::Unhealthy
            }
            &&& ok ==> after.consecutive_failures == 0 && after.cooldown_until is None
            &&& !ok ==> after.consecutive_failures == p.consecutive_failures + 1 && (after.cooldown_until is Some <==> base > 0
                && p.consecutive_failures >= 1)
            &&& after == (ProviderView {
                model: after.model,
                available_models: after.available_models,
                latency_ms: after.latency_ms,
                last_checked_at: after.last_checked_at,
                last_error: after.last_error,
                status: after.status,
                consecutive_failures: after.consecutive_failures,
                cooldown_until: after.cooldown_until,
                health_history: after.health_history,
                ..p
            })
        }),
{
}

/// A model is asked for exactly in a deep check of an upstream that listed models, and it is the one for
/// Codex. The requests of a check show the key of the provider.
pub proof fn law_deep_checks_ask_the_chosen_model(finding: FindingView, deep_probe: bool, p: ProviderView)
    ensures
        probed_model(finding, deep_probe) is Some <==> deep_probe && finding is Listed,
        finding matches FindingView::Listed(model, _) ==> probed_model(finding, true) == Some(model),
        p.api_key matches Some(key) ==> bearer_of(p) == key,
        p.api_key is None ==> bearer_of(p).len() == 0,
{
}

/// A sweep checks exactly the providers that are switched on, in the order of the list.
pub proof fn law_sweeps_check_enabled_providers(list: Seq<ProviderView>)
    ensures
        enabled_ids_of(list) == list.filter(|p: ProviderView| p.enabled).map_values(|p: ProviderView| p.id),
    decreases list.len(),
{
    let on = |p: ProviderView| p.enabled;
    let id = |p: ProviderView| p.id;
    if list.len() > 0 {
        let front = list.drop_last();
        law_sweeps_check_enabled_providers(front);
        assert(list =~= front.push(list.last()));
        crate::order::lemma_filter_push(front, on, list.last());
        assert(front.filter(on).push(list.last()).map_values(id) =~= front.filter(on).map_values(id).push(list.last().id));
    } else {
        reveal(Seq::filter);
        assert(list.filter(on).map_values(id) =~= Seq::<Seq<char>>::empty());
    }
}

/// Providers are checked four at a time, and fewer only at the end.
pub proof fn law_batches_of_four(ids: Seq<Seq<char>>)
    ensures
        batches_of(ids).flatten() == ids,
        forall|i: int| 0 <= i < batches_of(ids).len() - 1 ==> (#[trigger] batches_of(ids)[i]).len() == 4,
        ids.len() > 0 ==> 1 <= batches_of(ids).last().len() <= 4,
        batches_of(ids).len() == (ids.len() + 3) / 4,
    decreases ids.len(),
{
    law_batches_cover_everything(ids);
    if ids.len() > 4 {
        let rest = batches_of(ids.skip(4));
        law_batches_of_four(ids.skip(4));
        assert forall|i: int| 0 <= i < batches_of(ids).len() - 1 implies (#[trigger] batches_of(ids)[i]).len() == 4 by {
            if i > 0 {
                assert(batches_of(ids)[i] == rest[i - 1]);
            }
        }
        assert(batches_of(ids).last() == rest.last());
    }
}

/// The next sweep comes after half a minute while a provider is paused, and else after the interval, which is
/// at least a minute and at most two hours. A provider is paused while its pause ends later than now.
pub proof fn law_sweeps_come_again(interval_minutes: nat, list: Seq<ProviderView>, now: Moment)
    ensures
        wait_of(interval_minutes, true) == 30,
        1 <= interval_minutes <= 120 ==> wait_of(interval_minutes, false) == 60 * interval_minutes,
        interval_minutes < 1 ==> wait_of(interval_minutes, false) == 60,
        interval_minutes > 120 ==> wait_of(interval_minutes, false) == 7200,
        any_paused(list, now) <==> exists|i: int|
            #![trigger list[i]]
            0 <= i < list.len() && (list[i].cooldown_until matches Some(until) && (until.seconds > now.seconds || (
            until.seconds == now.seconds && until.nanos > now.nanos))),
{
    if exists|i: int|
        #![trigger list[i]]
        0 <= i < list.len() && (list[i].cooldown_until matches Some(until) && (until.seconds > now.seconds || (until.seconds
            == now.seconds && until.nanos > now.nanos))) {
        let i = choose|i: int|
            #![trigger list[i]]
            0 <= i < list.len() && (list[i].cooldown_until matches Some(until) && (until.seconds > now.seconds || (
            until.seconds == now.seconds && until.nanos > now.nanos)));
        assert(list[i].in_cooldown(now));
    }
}

/// A check that went wrong pauses the provider like a request that failed, from the second failure in a row
/// on, and every check leaves a sample that says when it was, how it went and how long it took. Of the
/// samples the newest stay.
pub proof fn law_checks_are_sampled(
    p: ProviderView,
    finding: FindingView,
    problem: Option<Seq<char>>,
    latency_ms: u64,
    at: Moment,
    base: nat,
)
    requires
        check_fits(p, finding, problem, at, base),
    ensures
        ({
            let after = checked(p, finding, problem, latency_ms, at, base);
            let ok = finding is Listed && problem is None;
            let all = p.health_history.push(
                HealthSample {
                    at,
                    ok,
                    latency_ms: if finding is Unreachable {
                        None
                    } else {
                        Some(latency_ms)
                    },
                },
            );
            let gone = if all.len() > 20 {
                all.len() - 20
            } else {
                0
            };
            &&& after.health_history == all.skip(gone)
            &&& !ok && p.consecutive_failures == u32::MAX ==> after.consecutive_failures == u32::MAX
            &&& !ok && base > 0 && p.consecutive_failures >= 1 ==> (after.cooldown_until matches Some(until) && {
                let grown = base * vstd::arithmetic::power2::pow2((after.consecutive_failures - 2) as nat);
                &&& until.seconds == at.seconds + if grown < 900 {
                    grown as int
                } else {
                    900
                }
                &&& at.nanos < 1_000_000_000 ==> until.nanos == at.nanos
            })
        }),
{
    let seen = observed(p, finding, problem, latency_ms, at);
    let ok = seen.status == ProviderStatus::Healthy;
    let sample = HealthSample { at, ok, latency_ms: seen.latency_ms };
    let sampled = seen.with_sample(sample);
    crate::models::law_history_keeps_the_newest(seen, sample);
    let all = p.health_history.push(sample);
    let gone = if all.len() > 20 {
        all.len() - 20
    } else {
        0
    };
    assert(sampled.health_history =~= all.skip(gone));
    if !ok {
        crate::models::law_pauses_in_seconds(failed_again(sampled), base, at);
    }
}

} // verus!

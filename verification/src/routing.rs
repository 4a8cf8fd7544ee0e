//! The order in which upstreams are tried.

use crate::clock::Moment;
use crate::models::{AppConfig, AppSettings, Provider, ProviderStatus, ProviderView, RouteStrategy};
use crate::order;
use crate::text;
use vstd::prelude::*;

verus! {

/// How many upstreams one request may try: all of them where no ceiling is set.
pub open spec fn budget_of(candidates: nat, max_attempts: nat) -> nat {
    if max_attempts == 0 || candidates <= max_attempts {
        candidates
    } else {
        max_attempts
    }
}

/// How many upstreams one request may try: all of them where no ceiling is set.
pub fn attempt_budget(candidates: usize, max_attempts: u32) -> (budget: usize)
    ensures
        budget == budget_of(candidates as nat, max_attempts as nat),
{
    if max_attempts == 0 || candidates <= max_attempts as usize {
        candidates
    } else {
        max_attempts as usize
    }
}

/// Kept for last: paused, or failed at its last probe where that counts.
pub open spec fn is_sidelined(p: ProviderView, settings: AppSettings, now: Moment) -> bool {
    p.in_cooldown(now) || (settings.skip_unhealthy && p.status == ProviderStatus::Unhealthy)
}

/// The last measured latency; a provider without one counts as the slowest.
pub open spec fn latency_of(p: ProviderView) -> u64 {
    match p.latency_ms {
        Some(ms) => ms,
        None => u64::MAX,
    }
}

/// The last measured latency; a provider without one counts as the slowest.
pub fn latency_key(provider: &Provider) -> (key: u64)
    ensures
        key == latency_of(provider@),
{
    match provider.latency_ms {
        Some(ms) => ms,
        None => u64::MAX,
    }
}

/// By priority, the lowest number first.
pub open spec fn by_priority() -> spec_fn(ProviderView, ProviderView) -> bool {
    |a: ProviderView, b: ProviderView| a.priority <= b.priority
}

/// By priority, then by latency.
pub open spec fn by_priority_then_latency() -> spec_fn(ProviderView, ProviderView) -> bool {
    |a: ProviderView, b: ProviderView|
        a.priority < b.priority || (a.priority == b.priority && latency_of(a) <= latency_of(b))
}

/// By latency, then by priority.
pub open spec fn by_latency_then_priority() -> spec_fn(ProviderView, ProviderView) -> bool {
    |a: ProviderView, b: ProviderView|
        latency_of(a) < latency_of(b) || (latency_of(a) == latency_of(b) && a.priority <= b.priority)
}

/// By priority, then by identifier.
pub open spec fn by_priority_then_id() -> spec_fn(ProviderView, ProviderView) -> bool {
    |a: ProviderView, b: ProviderView|
        a.priority < b.priority || (a.priority == b.priority && text::text_le(a.id, b.id))
}

/// The order that a strategy puts ready upstreams in.
pub open spec fn strategy_order(strategy: RouteStrategy) -> spec_fn(
    ProviderView,
    ProviderView,
) -> bool {
    match strategy {
        RouteStrategy::Priority => by_priority_then_latency(),
        RouteStrategy::Fastest => by_latency_then_priority(),
        RouteStrategy::RoundRobin => by_priority_then_id(),
    }
}

/// `s` with its first `k` items moved behind the others.
pub open spec fn rotated<T>(s: Seq<T>, k: int) -> Seq<T> {
    s.skip(k) + s.take(k)
}

/// The upstreams that are ready, as the configuration lists them.
pub open spec fn ready_of(
    providers: Seq<ProviderView>,
    settings: AppSettings,
    now: Moment,
) -> Seq<ProviderView> {
    crate::models::routable_of(providers).filter(|p: ProviderView| !is_sidelined(p, settings, now))
}

/// The upstreams that are kept for last, as the configuration lists them.
pub open spec fn held_back_of(
    providers: Seq<ProviderView>,
    settings: AppSettings,
    now: Moment,
) -> Seq<ProviderView> {
    crate::models::routable_of(providers).filter(|p: ProviderView| is_sidelined(p, settings, now))
}

/// How far the ready upstreams are turned: with the cursor, where requests take turns.
pub open spec fn turn_of(strategy: RouteStrategy, width: nat, cursor: nat) -> nat {
    if strategy == RouteStrategy::RoundRobin && width > 1 {
        cursor % width
    } else {
        0
    }
}

/// The upstreams for one request: the ready ones in the order of the strategy, then those kept for
/// last by priority.
pub open spec fn candidates_of(
    providers: Seq<ProviderView>,
    settings: AppSettings,
    cursor: nat,
    now: Moment,
) -> Seq<ProviderView> {
    let ready = ready_of(providers, settings, now);
    rotated(
        order::stable_sort(ready, strategy_order(settings.route_strategy)),
        turn_of(settings.route_strategy, ready.len(), cursor) as int,
    ) + order::stable_sort(held_back_of(providers, settings, now), by_priority())
}

/// The cursor after one request: it moves on only where the request used it, and wraps around.
pub open spec fn cursor_after(
    providers: Seq<ProviderView>,
    settings: AppSettings,
    cursor: usize,
    now: Moment,
) -> usize {
    if settings.route_strategy == RouteStrategy::RoundRobin && ready_of(providers, settings, now).len() > 1 {
        if cursor == usize::MAX {
            0
        } else {
            (cursor + 1) as usize
        }
    } else {
        cursor
    }
}

pub(crate) fn precedes_by_priority(a: &Provider, b: &Provider) -> (r: bool)
    ensures
        r == by_priority()(a@, b@),
{
    a.priority <= b.priority
}

fn precedes_by_priority_then_latency(a: &Provider, b: &Provider) -> (r: bool)
    ensures
        r == by_priority_then_latency()(a@, b@),
{
    a.priority < b.priority || (a.priority == b.priority && latency_key(a) <= latency_key(b))
}

fn precedes_by_latency_then_priority(a: &Provider, b: &Provider) -> (r: bool)
    ensures
        r == by_latency_then_priority()(a@, b@),
{
    latency_key(a) < latency_key(b) || (latency_key(a) == latency_key(b) && a.priority <= b.priority)
}

fn precedes_by_priority_then_id(a: &Provider, b: &Provider) -> (r: bool)
    ensures
        r == by_priority_then_id()(a@, b@),
{
    a.priority < b.priority || (a.priority == b.priority && text::not_after(a.id.as_str(), b.id.as_str()))
}

fn sort_ready(ready: Vec<Provider>, strategy: RouteStrategy) -> (sorted: Vec<Provider>)
    ensures
        sorted.deep_view() == order::stable_sort(ready.deep_view(), strategy_order(strategy)),
        sorted@.len() == ready@.len(),
{
    match strategy {
        RouteStrategy::Priority => order::sort_by(
            ready,
            precedes_by_priority_then_latency,
            Ghost(by_priority_then_latency()),
        ),
        RouteStrategy::Fastest => order::sort_by(
            ready,
            precedes_by_latency_then_priority,
            Ghost(by_latency_then_priority()),
        ),
        RouteStrategy::RoundRobin => order::sort_by(ready, precedes_by_priority_then_id, Ghost(by_priority_then_id())),
    }
}

/// Ordered upstreams for one request: ready nodes first, then everything else as a last resort.
pub fn select_candidates(config: &AppConfig, settings: &AppSettings, cursor: &mut usize, now: Moment) -> (candidates: Vec<
    Provider,
>)
    ensures
        candidates.deep_view() == candidates_of(config@.providers, *settings, *old(cursor) as nat, now),
        *final(cursor) == cursor_after(config@.providers, *settings, *old(cursor), now),
{
    let ghost is_ready = |p: ProviderView| !is_sidelined(p, *settings, now);
    let ghost is_held = |p: ProviderView| is_sidelined(p, *settings, now);
    let routable = config.routable();
    let ghost all = routable.deep_view();
    let mut ready: Vec<Provider> = Vec::new();
    let mut held_back: Vec<Provider> = Vec::new();
    let mut i: usize = 0;
    proof {
        reveal(Seq::filter);
        assert(all.take(0) =~= Seq::<ProviderView>::empty());
        assert(ready.deep_view() =~= all.take(0).filter(is_ready));
        assert(held_back.deep_view() =~= all.take(0).filter(is_held));
    }
    while i < routable.len()
        invariant
            is_ready == (|p: ProviderView| !is_sidelined(p, *settings, now)),
            is_held == (|p: ProviderView| is_sidelined(p, *settings, now)),
            all == routable.deep_view(),
            i <= routable@.len(),
            ready.deep_view() == all.take(i as int).filter(is_ready),
            held_back.deep_view() == all.take(i as int).filter(is_held),
        decreases routable@.len() - i,
    {
        let ghost some_ready = ready.deep_view();
        let ghost some_held = held_back.deep_view();
        let provider = routable[i];
        proof {
            assert(all[i as int] == provider@);
            assert(all.take(i + 1) =~= all.take(i as int).push(provider@));
            order::lemma_filter_push(all.take(i as int), is_ready, provider@);
            order::lemma_filter_push(all.take(i as int), is_held, provider@);
        }
        let sidelined = provider.in_cooldown(now) || (settings.skip_unhealthy && provider.status
            == ProviderStatus::Unhealthy);
        if sidelined {
            held_back.push(provider.clone());
            assert(held_back.deep_view() =~= some_held.push(provider@));
        } else {
            ready.push(provider.clone());
            assert(ready.deep_view() =~= some_ready.push(provider@));
        }
        i = i + 1;
    }
    assert(all.take(i as int) =~= all);
    let width: usize = ready.len();
    assert(width == ready_of(config@.providers, *settings, now).len());
    let mut sorted = sort_ready(ready, settings.route_strategy);
    let ghost ordered = sorted.deep_view();
    if settings.route_strategy == RouteStrategy::RoundRobin && width > 1 {
        let turn: usize = *cursor % width;
        let mut tail = sorted.split_off(turn);
        let ghost back = tail.deep_view();
        let ghost front = sorted.deep_view();
        tail.append(&mut sorted);
        sorted = tail;
        *cursor = cursor.wrapping_add(1);
        proof {
            assert(back =~= ordered.skip(turn as int));
            assert(front =~= ordered.take(turn as int));
            assert(sorted.deep_view() =~= rotated(ordered, turn as int));
        }
    } else {
        assert(rotated(ordered, 0) =~= ordered);
    }
    let ghost first = sorted.deep_view();
    let mut last = order::sort_by(held_back, precedes_by_priority, Ghost(by_priority()));
    let ghost second = last.deep_view();
    sorted.append(&mut last);
    assert(sorted.deep_view() =~= first + second);
    sorted
}

// ------------------------------------------------------------------------------------ laws
proof fn lemma_partition<T>(s: Seq<T>, keep: spec_fn(T) -> bool, drop: spec_fn(T) -> bool)
    requires
        forall|x: T| #[trigger] drop(x) == !keep(x),
    ensures
        s.filter(keep).len() + s.filter(drop).len() == s.len(),
        s.filter(keep).to_multiset().add(s.filter(drop).to_multiset()) == s.to_multiset(),
    decreases s.len(),
{
    broadcast use vstd::seq_lib::group_to_multiset_ensures;

    if s.len() == 0 {
        reveal(Seq::filter);
        assert(s.filter(keep).to_multiset().add(s.filter(drop).to_multiset()) =~= s.to_multiset());
    } else {
        let t = s.drop_last();
        let x = s.last();
        lemma_partition(t, keep, drop);
        assert(s =~= t.push(x));
        order::lemma_filter_push(t, keep, x);
        order::lemma_filter_push(t, drop, x);
        assert(drop(x) == !keep(x));
        let kept = t.filter(keep).to_multiset();
        let dropped = t.filter(drop).to_multiset();
        assert(kept.insert(x).add(dropped) =~= kept.add(dropped).insert(x));
        assert(kept.add(dropped.insert(x)) =~= kept.add(dropped).insert(x));
    }
}

proof fn lemma_rotation<T>(s: Seq<T>, k: int)
    requires
        0 <= k <= s.len(),
    ensures
        rotated(s, k).len() == s.len(),
        rotated(s, k).to_multiset() == s.to_multiset(),
{
    broadcast use vstd::seq_lib::group_to_multiset_ensures;

    assert(s =~= s.take(k) + s.skip(k));
    vstd::seq_lib::lemma_multiset_commutative(s.take(k), s.skip(k));
    vstd::seq_lib::lemma_multiset_commutative(s.skip(k), s.take(k));
    assert(rotated(s, k).to_multiset() =~= s.to_multiset());
}

proof fn lemma_turn(strategy: RouteStrategy, width: nat, cursor: nat)
    ensures
        0 <= turn_of(strategy, width, cursor) <= width,
{
    if width > 1 {
        vstd::arithmetic::div_mod::lemma_mod_bound(cursor as int, width as int);
    }
}

/// No upstream that could serve a request is lost, none appears twice, and no other is tried: the
/// candidates are the routable providers in another order.
pub proof fn law_candidates_are_the_routable_providers(
    providers: Seq<ProviderView>,
    settings: AppSettings,
    cursor: nat,
    now: Moment,
)
    ensures
        candidates_of(providers, settings, cursor, now).to_multiset() == crate::models::routable_of(
            providers,
        ).to_multiset(),
        candidates_of(providers, settings, cursor, now).len() == crate::models::routable_of(providers).len(),
{
    let routable = crate::models::routable_of(providers);
    let is_ready = |p: ProviderView| !is_sidelined(p, settings, now);
    let is_held = |p: ProviderView| is_sidelined(p, settings, now);
    let ready = routable.filter(is_ready);
    let held = routable.filter(is_held);
    let le = strategy_order(settings.route_strategy);
    let turn = turn_of(settings.route_strategy, ready.len(), cursor);
    let sorted = order::stable_sort(ready, le);
    let last = order::stable_sort(held, by_priority());
    lemma_partition(routable, is_ready, is_held);
    order::lemma_sort_keeps_items(ready, le);
    order::lemma_sort_keeps_items(held, by_priority());
    lemma_turn(settings.route_strategy, ready.len(), cursor);
    lemma_rotation(sorted, turn as int);
    vstd::seq_lib::lemma_multiset_commutative(rotated(sorted, turn as int), last);
}

/// A request finds no candidate exactly when no provider is enabled with a key.
pub proof fn law_no_candidate_only_without_routable_providers(
    providers: Seq<ProviderView>,
    settings: AppSettings,
    cursor: nat,
    now: Moment,
)
    ensures
        candidates_of(providers, settings, cursor, now).len() == 0 <==> (forall|i: int|
            0 <= i < providers.len() ==> !(#[trigger] providers[i]).is_routable()),
{
    let keep = |p: ProviderView| p.is_routable();
    law_candidates_are_the_routable_providers(providers, settings, cursor, now);
    order::lemma_filter_members(providers, keep);
    let routable = providers.filter(keep);
    if routable.len() == 0 {
        assert forall|i: int| 0 <= i < providers.len() implies !(#[trigger] providers[i]).is_routable() by {
            if keep(providers[i]) {
                assert(routable.contains(providers[i]));
            }
        }
    } else {
        assert(keep(routable[0]) && providers.contains(routable[0]));
    }
}

proof fn lemma_sorted_members<T>(s: Seq<T>, le: spec_fn(T, T) -> bool, i: int)
    requires
        0 <= i < s.len(),
    ensures
        0 <= i < order::stable_sort(s, le).len(),
        s.contains(order::stable_sort(s, le)[i]),
{
    broadcast use vstd::seq_lib::group_to_multiset_ensures;

    order::lemma_sort_keeps_items(s, le);
    let x = order::stable_sort(s, le)[i];
    assert(order::stable_sort(s, le).contains(x));
    assert(order::stable_sort(s, le).to_multiset().contains(x));
}

/// Upstreams that are paused, or failed at their last probe, stand behind all the others: they are
/// a last resort, but they are reachable.
pub proof fn law_ready_upstreams_come_first(
    providers: Seq<ProviderView>,
    settings: AppSettings,
    cursor: nat,
    now: Moment,
    i: int,
)
    requires
        0 <= i < candidates_of(providers, settings, cursor, now).len(),
    ensures
        is_sidelined(candidates_of(providers, settings, cursor, now)[i], settings, now) <==> i >= ready_of(
            providers,
            settings,
            now,
        ).len(),
        candidates_of(providers, settings, cursor, now)[i].is_routable(),
{
    let keep = |p: ProviderView| p.is_routable();
    let is_ready = |p: ProviderView| !is_sidelined(p, settings, now);
    let is_held = |p: ProviderView| is_sidelined(p, settings, now);
    let routable = providers.filter(keep);
    let ready = routable.filter(is_ready);
    let held = routable.filter(is_held);
    let le = strategy_order(settings.route_strategy);
    let turn = turn_of(settings.route_strategy, ready.len(), cursor) as int;
    order::lemma_filter_members(providers, keep);
    order::lemma_filter_members(routable, is_ready);
    order::lemma_filter_members(routable, is_held);
    let all = candidates_of(providers, settings, cursor, now);
    order::lemma_sort_keeps_items(ready, le);
    order::lemma_sort_keeps_items(held, by_priority());
    lemma_turn(settings.route_strategy, ready.len(), cursor);
    if i < ready.len() {
        let from = if i < ready.len() - turn {
            i + turn
        } else {
            i - (ready.len() - turn)
        };
        lemma_sorted_members(ready, le, from);
        let k = choose|k: int| 0 <= k < ready.len() && ready[k] == order::stable_sort(ready, le)[from];
        assert(is_ready(ready[k]) && routable.contains(ready[k]));
        assert(all[i] == ready[k]);
        let m = choose|m: int| 0 <= m < routable.len() && routable[m] == ready[k];
        assert(keep(routable[m]));
    } else {
        lemma_sorted_members(held, by_priority(), i - ready.len());
        let k = choose|k: int| 0 <= k < held.len() && held[k] == order::stable_sort(held, by_priority())[i - ready.len()];
        assert(is_held(held[k]) && routable.contains(held[k]));
        assert(all[i] == held[k]);
        let m = choose|m: int| 0 <= m < routable.len() && routable[m] == held[k];
        assert(keep(routable[m]));
    }
}

/// Every order that upstreams are put in compares any two of them, and transitively.
pub proof fn law_strategies_rank(strategy: RouteStrategy)
    ensures
        order::is_ranking(strategy_order(strategy)),
        order::is_ranking(by_priority()),
{
    let le = by_priority_then_id();
    assert forall|a: ProviderView, b: ProviderView| #[trigger] le(a, b) || le(b, a) by {
        text::lemma_text_order(a.id, b.id, b.id);
    }
    assert forall|a: ProviderView, b: ProviderView, c: ProviderView| #[trigger]
        le(a, b) && #[trigger] le(b, c) implies le(a, c) by {
        text::lemma_text_order(a.id, b.id, c.id);
    }
}

/// With strict priorities no ready upstream is tried before one of a lower number, nor, at equal
/// numbers, before a faster one. With the fastest first it is the same with the two exchanged.
pub proof fn law_ready_upstreams_follow_the_strategy(
    providers: Seq<ProviderView>,
    settings: AppSettings,
    cursor: nat,
    now: Moment,
    i: int,
    j: int,
)
    requires
        settings.route_strategy != RouteStrategy::RoundRobin,
        0 <= i < j < ready_of(providers, settings, now).len(),
    ensures
        strategy_order(settings.route_strategy)(
            candidates_of(providers, settings, cursor, now)[i],
            candidates_of(providers, settings, cursor, now)[j],
        ),
{
    let ready = ready_of(providers, settings, now);
    let le = strategy_order(settings.route_strategy);
    law_strategies_rank(settings.route_strategy);
    order::lemma_sort_ascending(ready, le);
    order::lemma_sort_keeps_items(ready, le);
    let sorted = order::stable_sort(ready, le);
    assert(rotated(sorted, 0) =~= sorted);
    assert(le(sorted[i], sorted[j]));
}

/// Where requests take turns, the request at cursor `c` starts with the ready upstream at place
/// `c` modulo their number, in the order of priority and identifier, and the next request has the
/// next cursor.
pub proof fn law_round_robin_starts_with_each_in_turn(
    providers: Seq<ProviderView>,
    settings: AppSettings,
    cursor: usize,
    now: Moment,
)
    requires
        settings.route_strategy == RouteStrategy::RoundRobin,
        ready_of(providers, settings, now).len() > 1,
    ensures
        candidates_of(providers, settings, cursor as nat, now)[0] == order::stable_sort(
            ready_of(providers, settings, now),
            by_priority_then_id(),
        )[cursor as int % ready_of(providers, settings, now).len() as int],
        cursor < usize::MAX ==> cursor_after(providers, settings, cursor, now) == cursor + 1,
{
    let ready = ready_of(providers, settings, now);
    let sorted = order::stable_sort(ready, by_priority_then_id());
    order::lemma_sort_keeps_items(ready, by_priority_then_id());
    vstd::arithmetic::div_mod::lemma_mod_bound(cursor as int, ready.len() as int);
    let turn = cursor as nat % ready.len();
    assert(rotated(sorted, turn as int)[0] == sorted[turn as int]);
}

/// As many cursors in a row as there are ready upstreams lead to each place exactly once.
pub proof fn law_turns_reach_every_place_once(cursor: nat, width: nat, place: nat)
    requires
        place < width,
    ensures
        exists|k: int| 0 <= k < width && #[trigger] ((cursor + k) % width as int) == place,
        forall|k: int, m: int|
            0 <= k < width && 0 <= m < width && #[trigger] ((cursor + k) % width as int) == place && #[trigger] ((cursor + m)
                % width as int) == place ==> k == m,
{
    let w = width as int;
    let q = cursor as int / w;
    let r = cursor as int % w;
    vstd::arithmetic::div_mod::lemma_fundamental_div_mod(cursor as int, w);
    vstd::arithmetic::div_mod::lemma_mod_bound(cursor as int, w);
    let k = if place >= r {
        place - r
    } else {
        place - r + w
    };
    let turns = if place >= r {
        q
    } else {
        q + 1
    };
    assert(cursor + k == turns * w + place) by (nonlinear_arith)
        requires
            cursor == w * q + r,
            k == place - r && turns == q || k == place - r + w && turns == q + 1,
    ;
    vstd::arithmetic::div_mod::lemma_fundamental_div_mod_converse(cursor + k, w, turns, place as int);
    assert((cursor + k) % w == place);
    assert forall|a: int, b: int|
        0 <= a < width && 0 <= b < width && #[trigger] ((cursor + a) % w) == place && #[trigger] ((cursor + b) % w)
            == place implies a == b by {
        vstd::arithmetic::div_mod::lemma_fundamental_div_mod(cursor + a, w);
        vstd::arithmetic::div_mod::lemma_fundamental_div_mod(cursor + b, w);
        let x = (cursor + a) / w;
        let y = (cursor + b) / w;
        assert(a == b) by (nonlinear_arith)
            requires
                cursor + a == w * x + place,
                cursor + b == w * y + place,
                0 <= a < w,
                0 <= b < w,
        ;
    }
}

/// A request never tries more upstreams than there are, nor more than the ceiling, and at least one
/// where there is one.
pub proof fn law_budget_is_bounded(candidates: nat, max_attempts: nat)
    ensures
        budget_of(candidates, max_attempts) <= candidates,
        max_attempts > 0 ==> budget_of(candidates, max_attempts) <= max_attempts,
        candidates > 0 ==> budget_of(candidates, max_attempts) > 0,
{
}

/// A provider that has to wait: its pause ends later than now, or its last probe failed and that counts.
pub open spec fn has_to_wait(p: ProviderView, settings: AppSettings, now: Moment) -> bool {
    ||| p.cooldown_until matches Some(until) && (until.seconds > now.seconds || (until.seconds == now.seconds
        && until.nanos > now.nanos))
    ||| settings.skip_unhealthy && p.status == ProviderStatus::Unhealthy
}

/// The measured milliseconds of one provider are at most those of the other, where none measured is most.
pub open spec fn as_quick(a: ProviderView, b: ProviderView) -> bool {
    b.latency_ms matches Some(theirs) ==> (a.latency_ms matches Some(ours) && ours <= theirs) || theirs == u64::MAX
}

/// Providers that have to wait stand behind all that need not, and among themselves by priority, the lowest
/// number first.
pub proof fn law_waiting_providers_come_last(
    providers: Seq<ProviderView>,
    settings: AppSettings,
    cursor: nat,
    now: Moment,
    i: int,
    j: int,
)
    requires
        0 <= i < j < candidates_of(providers, settings, cursor, now).len(),
    ensures
        ({
            let all = candidates_of(providers, settings, cursor, now);
            &&& has_to_wait(all[i], settings, now) ==> has_to_wait(all[j], settings, now)
            &&& has_to_wait(all[i], settings, now) ==> all[i].priority <= all[j].priority
        }),
{
    let all = candidates_of(providers, settings, cursor, now);
    law_ready_upstreams_come_first(providers, settings, cursor, now, i);
    law_ready_upstreams_come_first(providers, settings, cursor, now, j);
    let ready = ready_of(providers, settings, now);
    let held = held_back_of(providers, settings, now);
    let last = order::stable_sort(held, by_priority());
    let le = strategy_order(settings.route_strategy);
    order::lemma_sort_keeps_items(ready, le);
    order::lemma_sort_keeps_items(held, by_priority());
    lemma_turn(settings.route_strategy, ready.len(), cursor);
    if i >= ready.len() {
        assert(order::is_ranking(by_priority()));
        order::lemma_sort_ascending(held, by_priority());
        assert(by_priority()(last[i - ready.len()], last[j - ready.len()]));
        assert(all[i] == last[i - ready.len()]);
        assert(all[j] == last[j - ready.len()]);
    }
}

/// With the fastest first, no provider that need not wait is tried before one that was measured quicker,
/// nor, of two that are as quick, before one of a lower number. One that was not measured is the slowest.
pub proof fn law_fastest_come_first(
    providers: Seq<ProviderView>,
    settings: AppSettings,
    cursor: nat,
    now: Moment,
    i: int,
    j: int,
)
    requires
        settings.route_strategy == RouteStrategy::Fastest,
        0 <= i < j < candidates_of(providers, settings, cursor, now).len(),
        !has_to_wait(candidates_of(providers, settings, cursor, now)[j], settings, now),
    ensures
        ({
            let (a, b) = (
                candidates_of(providers, settings, cursor, now)[i],
                candidates_of(providers, settings, cursor, now)[j],
            );
            &&& as_quick(a, b)
            &&& as_quick(b, a) ==> a.priority <= b.priority
        }),
{
    law_ready_upstreams_come_first(providers, settings, cursor, now, i);
    law_ready_upstreams_come_first(providers, settings, cursor, now, j);
    law_ready_upstreams_follow_the_strategy(providers, settings, cursor, now, i, j);
}

/// With strict priorities, no provider that need not wait is tried before one of a lower number, nor, at
/// equal numbers, before one that was measured quicker.
pub proof fn law_lowest_numbers_come_first(
    providers: Seq<ProviderView>,
    settings: AppSettings,
    cursor: nat,
    now: Moment,
    i: int,
    j: int,
)
    requires
        settings.route_strategy == RouteStrategy::Priority,
        0 <= i < j < candidates_of(providers, settings, cursor, now).len(),
        !has_to_wait(candidates_of(providers, settings, cursor, now)[j], settings, now),
    ensures
        ({
            let (a, b) = (
                candidates_of(providers, settings, cursor, now)[i],
                candidates_of(providers, settings, cursor, now)[j],
            );
            &&& a.priority <= b.priority
            &&& a.priority == b.priority ==> as_quick(a, b)
        }),
{
    law_ready_upstreams_come_first(providers, settings, cursor, now, i);
    law_ready_upstreams_come_first(providers, settings, cursor, now, j);
    law_ready_upstreams_follow_the_strategy(providers, settings, cursor, now, i, j);
}

/// Where requests take turns, the next cursor begins with the provider that this one tries second, and the
/// one that it tried first comes last of those that need not wait. A cursor that is a multiple of their
/// number tries them by priority and, at equal numbers, by identifier.
pub proof fn law_turns_go_round(
    providers: Seq<ProviderView>,
    settings: AppSettings,
    cursor: nat,
    now: Moment,
    width: nat,
    i: int,
)
    requires
        settings.route_strategy == RouteStrategy::RoundRobin,
        width <= candidates_of(providers, settings, cursor, now).len(),
        forall|k: int|
            0 <= k < candidates_of(providers, settings, cursor, now).len() ==> (has_to_wait(
                #[trigger] candidates_of(providers, settings, cursor, now)[k],
                settings,
                now,
            ) <==> k >= width),
        0 <= i < width,
    ensures
        ({
            let here = candidates_of(providers, settings, cursor, now);
            let next = candidates_of(providers, settings, cursor + 1, now);
            &&& i + 1 < width ==> next[i] == here[i + 1]
            &&& i + 1 == width ==> next[i] == here[0]
            &&& cursor % width == 0 && i + 1 < width ==> here[i].priority < here[i + 1].priority || (here[i].priority
                == here[i + 1].priority && text::text_le(here[i].id, here[i + 1].id))
        }),
{
    let here = candidates_of(providers, settings, cursor, now);
    let ready = ready_of(providers, settings, now);
    let le = by_priority_then_id();
    let sorted = order::stable_sort(ready, le);
    order::lemma_sort_keeps_items(ready, le);
    order::lemma_sort_keeps_items(held_back_of(providers, settings, now), by_priority());
    lemma_turn(settings.route_strategy, ready.len(), cursor);
    lemma_turn(settings.route_strategy, ready.len(), cursor + 1);
    law_strategies_rank(settings.route_strategy);
    order::lemma_sort_ascending(ready, le);
    if ready.len() < here.len() {
        law_ready_upstreams_come_first(providers, settings, cursor, now, ready.len() as int);
    }
    if ready.len() > 0 {
        law_ready_upstreams_come_first(providers, settings, cursor, now, ready.len() - 1);
    }
    if width < here.len() {
        law_ready_upstreams_come_first(providers, settings, cursor, now, width as int);
        assert(has_to_wait(here[width as int], settings, now));
    }
    law_ready_upstreams_come_first(providers, settings, cursor, now, width - 1);
    assert(!has_to_wait(here[width - 1], settings, now));
    assert(width == ready.len());
    let n = width as int;
    let c = cursor as int;
    if n > 1 {
        vstd::arithmetic::div_mod::lemma_fundamental_div_mod(c, n);
        vstd::arithmetic::div_mod::lemma_mod_bound(c, n);
        let r = c % n;
        if r + 1 < n {
            vstd::arithmetic::div_mod::lemma_fundamental_div_mod_converse(c + 1, n, c / n, r + 1);
        } else {
            assert(c + 1 == (c / n + 1) * n + 0) by (nonlinear_arith)
                requires
                    c == n * (c / n) + r,
                    r + 1 == n,
            ;
            vstd::arithmetic::div_mod::lemma_fundamental_div_mod_converse(c + 1, n, c / n + 1, 0);
        }
        if r == 0 && i + 1 < n {
            assert(le(sorted[i], sorted[i + 1]));
        }
    }
}

proof fn lemma_filter_counts(s: Seq<ProviderView>, keep: spec_fn(ProviderView) -> bool, p: ProviderView)
    ensures
        s.filter(keep).to_multiset().count(p) == if keep(p) {
            s.to_multiset().count(p)
        } else {
            0
        },
    decreases s.len(),
{
    broadcast use vstd::seq_lib::group_to_multiset_ensures;

    if s.len() == 0 {
        reveal(Seq::filter);
        assert(s.filter(keep) =~= s);
    } else {
        let t = s.drop_last();
        lemma_filter_counts(t, keep, p);
        assert(s =~= t.push(s.last()));
        order::lemma_filter_push(t, keep, s.last());
    }
}

/// A request may try exactly the providers that are switched on and have a key, each as often as it is
/// configured.
pub proof fn law_every_enabled_provider_is_tried_once(
    providers: Seq<ProviderView>,
    settings: AppSettings,
    cursor: nat,
    now: Moment,
    p: ProviderView,
)
    ensures
        candidates_of(providers, settings, cursor, now).to_multiset().count(p) == if p.enabled && p.api_key is Some {
            providers.to_multiset().count(p)
        } else {
            0
        },
{
    law_candidates_are_the_routable_providers(providers, settings, cursor, now);
    lemma_filter_counts(providers, |q: ProviderView| q.is_routable(), p);
}

/// A request tries as many providers as there are, or as the ceiling allows where that is fewer and not
/// zero. The cursor moves on by one, and only where requests take turns among several.
pub proof fn law_ceilings_and_cursors(
    candidates: nat,
    ceiling: nat,
    providers: Seq<ProviderView>,
    settings: AppSettings,
    cursor: usize,
    now: Moment,
)
    ensures
        budget_of(candidates, ceiling) == if ceiling > 0 && ceiling < candidates {
            ceiling
        } else {
            candidates
        },
        ({
            let after = cursor_after(providers, settings, cursor, now);
            let all = candidates_of(providers, settings, cursor as nat, now);
            let takes_turns = settings.route_strategy == RouteStrategy::RoundRobin && all.len() > 1 && !has_to_wait(
                all[1],
                settings,
                now,
            );
            &&& !takes_turns ==> after == cursor
            &&& takes_turns && cursor < usize::MAX ==> after == cursor + 1
            &&& takes_turns && cursor == usize::MAX ==> after == 0
        }),
{
    let all = candidates_of(providers, settings, cursor as nat, now);
    let ready = ready_of(providers, settings, now);
    let is_ready = |p: ProviderView| !is_sidelined(p, settings, now);
    law_candidates_are_the_routable_providers(providers, settings, cursor as nat, now);
    order::lemma_none_dropped(crate::models::routable_of(providers), is_ready);
    if all.len() > 1 {
        law_ready_upstreams_come_first(providers, settings, cursor as nat, now, 1);
    }
}

/// Providers that nothing sets apart are tried in the order in which they are configured: with strict
/// priorities, and with the fastest first, those of one number that are as quick as each other, and among
/// those that have to wait all of one number.
pub proof fn law_equals_are_tried_as_configured(
    providers: Seq<ProviderView>,
    settings: AppSettings,
    cursor: nat,
    now: Moment,
    x: ProviderView,
)
    requires
        settings.route_strategy != RouteStrategy::RoundRobin,
    ensures
        candidates_of(providers, settings, cursor, now).filter(
            |p: ProviderView|
                !has_to_wait(p, settings, now) && (p.priority == x.priority && as_quick(p, x) && as_quick(x, p)),
        ) == providers.filter(
            |p: ProviderView|
                p.enabled && p.api_key is Some && !has_to_wait(p, settings, now) && (p.priority == x.priority
                    && as_quick(p, x) && as_quick(x, p)),
        ),
        candidates_of(providers, settings, cursor, now).filter(
            |p: ProviderView| has_to_wait(p, settings, now) && p.priority == x.priority,
        ) == providers.filter(
            |p: ProviderView|
                p.enabled && p.api_key is Some && has_to_wait(p, settings, now) && p.priority == x.priority,
        ),
{
    let routable = crate::models::routable_of(providers);
    let keep = |p: ProviderView| p.is_routable();
    let is_ready = |p: ProviderView| !is_sidelined(p, settings, now);
    let is_held = |p: ProviderView| is_sidelined(p, settings, now);
    let ready = ready_of(providers, settings, now);
    let held = held_back_of(providers, settings, now);
    let le = strategy_order(settings.route_strategy);
    let first = order::stable_sort(ready, le);
    let last = order::stable_sort(held, by_priority());
    let all = candidates_of(providers, settings, cursor, now);
    law_strategies_rank(settings.route_strategy);
    assert(rotated(first, 0) =~= first);
    assert(all == first + last);
    let near = order::same_rank(x, le);
    let level = order::same_rank(x, by_priority());
    let quick = |p: ProviderView|
        !has_to_wait(p, settings, now) && (p.priority == x.priority && as_quick(p, x) && as_quick(x, p));
    let quick_here = |p: ProviderView|
        p.enabled && p.api_key is Some && !has_to_wait(p, settings, now) && (p.priority == x.priority && as_quick(p, x)
            && as_quick(x, p));
    let slow = |p: ProviderView| has_to_wait(p, settings, now) && p.priority == x.priority;
    let slow_here = |p: ProviderView|
        p.enabled && p.api_key is Some && has_to_wait(p, settings, now) && p.priority == x.priority;
    Seq::filter_distributes_over_add(first, last, quick);
    Seq::filter_distributes_over_add(first, last, slow);
    lemma_sorted_are_kept(ready, le, is_ready, routable);
    lemma_sorted_are_kept(held, by_priority(), is_held, routable);
    order::lemma_all_kept(first, is_ready);
    order::lemma_all_kept(last, is_held);
    order::lemma_filter_twice(first, is_ready, near, quick);
    order::lemma_filter_twice(last, is_held, level, slow);
    order::lemma_sort_stable(ready, le, x);
    order::lemma_sort_stable(held, by_priority(), x);
    order::lemma_filter_members(last, quick);
    assert(last.filter(quick) =~= Seq::empty()) by {
        if last.filter(quick).len() > 0 {
            assert(quick(last.filter(quick)[0]) && last.contains(last.filter(quick)[0]));
        }
    }
    order::lemma_filter_members(first, slow);
    assert(first.filter(slow) =~= Seq::empty()) by {
        if first.filter(slow).len() > 0 {
            assert(slow(first.filter(slow)[0]) && first.contains(first.filter(slow)[0]));
        }
    }
    order::lemma_filter_twice(routable, is_ready, near, quick);
    order::lemma_filter_twice(routable, is_held, level, slow);
    order::lemma_filter_twice(providers, keep, quick, quick_here);
    order::lemma_filter_twice(providers, keep, slow, slow_here);
    assert(all.filter(quick) =~= first.filter(quick));
    assert(all.filter(slow) =~= last.filter(slow));
}

proof fn lemma_sorted_are_kept(
    kept: Seq<ProviderView>,
    le: spec_fn(ProviderView, ProviderView) -> bool,
    keep: spec_fn(ProviderView) -> bool,
    from: Seq<ProviderView>,
)
    requires
        kept == from.filter(keep),
    ensures
        forall|i: int| 0 <= i < order::stable_sort(kept, le).len() ==> keep(#[trigger] order::stable_sort(kept, le)[i]),
{
    order::lemma_filter_members(from, keep);
    order::lemma_sort_keeps_items(kept, le);
    assert forall|i: int| 0 <= i < order::stable_sort(kept, le).len() implies keep(
        #[trigger] order::stable_sort(kept, le)[i],
    ) by {
        lemma_sorted_members(kept, le, i);
    }
}

} // verus!

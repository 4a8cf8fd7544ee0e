//! The list of providers and what the user can do with it.

use crate::clock::Moment;
use crate::models::{AppConfig, Provider, ProviderInput, ProviderStatus, ProviderView};
use crate::order;
use crate::text;
use vstd::prelude::*;

verus! {

/// The place of the first provider with this identifier.
pub open spec fn find_id(providers: Seq<ProviderView>, id: Seq<char>) -> Option<int>
    decreases providers.len(),
{
    if providers.len() == 0 {
        None
    } else {
        match find_id(providers.drop_last(), id) {
            Some(at) => Some(at),
            None => if providers.last().id == id {
                Some(providers.len() - 1)
            } else {
                None
            },
        }
    }
}

/// What is found has the identifier and nothing before it has; where nothing is found, no provider
/// has it.
pub proof fn lemma_find_id(providers: Seq<ProviderView>, id: Seq<char>)
    ensures
        find_id(providers, id) matches Some(at) ==> 0 <= at < providers.len() && providers[at].id == id && forall|i: int|
            0 <= i < at ==> #[trigger] providers[i].id != id,
        find_id(providers, id) is None ==> forall|i: int| 0 <= i < providers.len() ==> #[trigger] providers[i].id != id,
    decreases providers.len(),
{
    if providers.len() > 0 {
        lemma_find_id(providers.drop_last(), id);
        assert forall|i: int| 0 <= i < providers.len() - 1 implies providers.drop_last()[i] == #[trigger] providers[i] by {}
    }
}

/// The providers with the first one of this identifier changed; as they are where there is none.
pub open spec fn changed(
    providers: Seq<ProviderView>,
    id: Seq<char>,
    change: spec_fn(ProviderView) -> ProviderView,
) -> Seq<ProviderView> {
    match find_id(providers, id) {
        Some(at) => providers.update(at, change(providers[at])),
        None => providers,
    }
}

/// The place of the first provider with this identifier.
pub fn position(providers: &Vec<Provider>, id: &str) -> (r: Option<usize>)
    ensures
        r is Some <==> find_id(providers.deep_view(), id@) is Some,
        r matches Some(at) ==> at < providers@.len() && find_id(providers.deep_view(), id@) == Some(at as int),
{
    let ghost all = providers.deep_view();
    let mut i: usize = 0;
    while i < providers.len()
        invariant
            all == providers.deep_view(),
            i <= providers@.len(),
            forall|k: int| 0 <= k < i ==> #[trigger] all[k].id != id@,
        decreases providers@.len() - i,
    {
        if text::same(providers[i].id.as_str(), id) {
            proof {
                lemma_find_id(all, id@);
                assert(all[i as int].id == id@);
            }
            return Some(i);
        }
        i = i + 1;
    }
    proof {
        lemma_find_id(all, id@);
    }
    None
}

/// The first provider with this identifier.
pub open spec fn existing_of(providers: Seq<ProviderView>, id: Seq<char>) -> Option<ProviderView> {
    match find_id(providers, id) {
        Some(at) => Some(providers[at]),
        None => None,
    }
}

// --------------------------------------------------------------------------------- saving
/// What is wrong with an input, if anything is.
pub open spec fn input_problem(input: ProviderInput) -> Option<Seq<char>> {
    if text::is_blank(input.name@) {
        Some("名称不能为空"@)
    } else if !("https://"@.is_prefix_of(input.base_url@) || "http://"@.is_prefix_of(input.base_url@)) {
        Some("API 地址必须以 http:// 或 https:// 开头"@)
    } else if input.priority == 0 || input.priority > 99 {
        Some("路由优先级必须在 1 到 99 之间"@)
    } else {
        None
    }
}

/// Refuses an input without a name, without an address of the right kind, or with a priority out of
/// range.
pub fn validate_provider(input: &ProviderInput) -> (r: Result<(), String>)
    ensures
        r is Ok <==> input_problem(*input) is None,
        r matches Err(message) ==> input_problem(*input) == Some(message@),
{
    if text::blank(input.name.as_str()) {
        return Err("名称不能为空".to_owned());
    }
    if !(text::starts_with(input.base_url.as_str(), "https://") || text::starts_with(
        input.base_url.as_str(),
        "http://",
    )) {
        return Err("API 地址必须以 http:// 或 https:// 开头".to_owned());
    }
    if input.priority == 0 || input.priority > 99 {
        return Err("路由优先级必须在 1 到 99 之间".to_owned());
    }
    Ok(())
}

/// A text that is present and not blank, as it is.
pub open spec fn non_blank(value: Option<Seq<char>>) -> Option<Seq<char>> {
    match value {
        Some(words) => if text::is_blank(words) {
            None
        } else {
            value
        },
        None => None,
    }
}

/// A text that is present and not blank, without the whitespace around it.
pub open spec fn trimmed_choice(value: Option<Seq<char>>) -> Option<Seq<char>> {
    match value {
        Some(words) => if text::is_blank(words) {
            None
        } else {
            Some(text::trimmed(words))
        },
        None => None,
    }
}

fn keep_non_blank(value: &Option<String>) -> (r: Option<String>)
    ensures
        r.deep_view() == non_blank(value.deep_view()),
{
    match value {
        Some(words) => if text::blank(words.as_str()) {
            None
        } else {
            Some(words.clone())
        },
        None => None,
    }
}

fn trim_choice(value: &Option<String>) -> (r: Option<String>)
    ensures
        r.deep_view() == trimmed_choice(value.deep_view()),
{
    match value {
        Some(words) => {
            let trimmed = text::trim(words.as_str());
            if trimmed.is_empty() {
                None
            } else {
                Some(trimmed.to_owned())
            }
        },
        None => None,
    }
}

/// The key in an input that is to be kept in the credential store.
pub fn new_secret(input: &ProviderInput) -> (secret: Option<String>)
    ensures
        secret.deep_view() == non_blank(input.api_key.deep_view()),
{
    keep_non_blank(&input.api_key)
}

/// The identifier that an input is saved under: its own, or a new one.
pub fn id_for(input: &ProviderInput) -> (id: String)
    ensures
        input.id matches Some(given) ==> id@ == given@,
        input.id is None ==> crate::ids::is_uuid(id@),
{
    match &input.id {
        Some(id) => id.clone(),
        None => crate::ids::fresh_id(),
    }
}

/// The key that a provider has after an input is saved: the new one, else the one it had.
pub open spec fn saved_key(existing: Option<ProviderView>, input: ProviderInput) -> Option<Seq<char>> {
    match non_blank(input.api_key.deep_view()) {
        Some(key) => Some(key),
        None => match existing {
            Some(old) => old.api_key,
            None => None,
        },
    }
}

/// The model that a provider has after an input is saved: the new one, else the one it had.
pub open spec fn saved_model(existing: Option<ProviderView>, input: ProviderInput) -> Seq<char> {
    match non_blank(input.model.deep_view()) {
        Some(model) => model,
        None => match existing {
            Some(old) => old.model,
            None => crate::discovery::pending_model(),
        },
    }
}

/// A provider of which nothing is known yet.
pub open spec fn unknown_provider(id: Seq<char>) -> ProviderView {
    ProviderView {
        id,
        name: Seq::empty(),
        base_url: Seq::empty(),
        api_key: None,
        has_key: false,
        model: crate::discovery::pending_model(),
        model_override: None,
        available_models: Seq::empty(),
        enabled: false,
        priority: 0,
        status: ProviderStatus::Unknown,
        latency_ms: None,
        last_checked_at: None,
        last_error: None,
        consecutive_failures: 0,
        cooldown_until: None,
        served_count: 0,
        failed_count: 0,
        health_history: Seq::empty(),
    }
}

/// The provider that an input makes: what the user filled in, and what is known of the provider
/// already. Its failures and its pause are forgotten.
pub open spec fn saved_provider(existing: Option<ProviderView>, id: Seq<char>, input: ProviderInput) -> ProviderView {
    let known = match existing {
        Some(old) => old,
        None => unknown_provider(id),
    };
    ProviderView {
        id,
        name: text::trimmed(input.name@),
        base_url: text::strip_end(input.base_url@, text::only('/')),
        api_key: saved_key(existing, input),
        has_key: true,
        model: saved_model(existing, input),
        model_override: trimmed_choice(input.model_override.deep_view()),
        enabled: input.enabled,
        priority: input.priority,
        ..known.without_cooldown()
    }
}

/// Why an input cannot be saved, if it cannot.
pub open spec fn save_problem(existing: Option<ProviderView>, input: ProviderInput) -> Option<Seq<char>> {
    match input_problem(input) {
        Some(problem) => Some(problem),
        None => if saved_key(existing, input) is None {
            Some("API Key 不能为空"@)
        } else {
            None
        },
    }
}

fn new_provider(id: &str) -> (provider: Provider)
    ensures
        provider@ == unknown_provider(id@),
{
    let provider = Provider {
        id: id.to_owned(),
        name: String::new(),
        base_url: String::new(),
        api_key: None,
        has_key: false,
        model: "自动获取中".to_owned(),
        model_override: None,
        available_models: Vec::new(),
        enabled: false,
        priority: 0,
        status: ProviderStatus::Unknown,
        latency_ms: None,
        last_checked_at: None,
        last_error: None,
        consecutive_failures: 0,
        cooldown_until: None,
        served_count: 0,
        failed_count: 0,
        health_history: Vec::new(),
    };
    assert(provider@.available_models =~= Seq::<Seq<char>>::empty());
    assert(provider@.name =~= Seq::<char>::empty());
    assert(provider@.base_url =~= Seq::<char>::empty());
    provider
}

/// The provider that an input makes under this identifier, if the input can be saved.
pub fn provider_from_input(config: &AppConfig, id: &str, input: &ProviderInput) -> (r: Result<Provider, String>)
    ensures
        r is Ok <==> save_problem(existing_of(config@.providers, id@), *input) is None,
        r matches Ok(provider) ==> provider@ == saved_provider(existing_of(config@.providers, id@), id@, *input),
        r matches Err(message) ==> save_problem(existing_of(config@.providers, id@), *input) == Some(message@),
{
    match validate_provider(input) {
        Ok(_) => {},
        Err(message) => {
            return Err(message);
        },
    }
    let at = position(&config.providers, id);
    let mut provider = match at {
        Some(at) => config.providers[at].clone(),
        None => new_provider(id),
    };
    let api_key = match keep_non_blank(&input.api_key) {
        Some(key) => Some(key),
        None => text::copied(&provider.api_key),
    };
    if api_key.is_none() {
        return Err("API Key 不能为空".to_owned());
    }
    let model = match keep_non_blank(&input.model) {
        Some(model) => model,
        None => provider.model.clone(),
    };
    provider.id = id.to_owned();
    provider.name = text::trim(input.name.as_str()).to_owned();
    provider.base_url = text::trim_end_char(input.base_url.as_str(), '/').to_owned();
    provider.api_key = api_key;
    provider.has_key = true;
    provider.model = model;
    provider.model_override = trim_choice(&input.model_override);
    provider.enabled = input.enabled;
    provider.priority = input.priority;
    provider.clear_cooldown();
    Ok(provider)
}

/// The list with this provider in place of the one with its identifier, or behind all the others.
pub open spec fn upserted(providers: Seq<ProviderView>, provider: ProviderView) -> Seq<ProviderView> {
    match find_id(providers, provider.id) {
        Some(at) => providers.update(at, provider),
        None => providers.push(provider),
    }
}

/// Puts a provider in place of the one with its identifier, or behind all the others.
pub fn upsert(config: &mut AppConfig, provider: Provider)
    ensures
        final(config)@.providers == upserted(old(config)@.providers, provider@),
        final(config).settings == old(config).settings,
{
    match position(&config.providers, provider.id.as_str()) {
        Some(at) => {
            config.providers[at] = provider;
            assert(config@.providers =~= old(config)@.providers.update(at as int, provider@));
        },
        None => {
            config.providers.push(provider);
            assert(config@.providers =~= old(config)@.providers.push(provider@));
        },
    }
}

// ------------------------------------------------------------------------------ importing
/// Why an input cannot be imported, if it cannot.
pub open spec fn import_problem(input: ProviderInput) -> Option<Seq<char>> {
    match input_problem(input) {
        Some(problem) => Some(problem),
        None => if non_blank(input.api_key.deep_view()) is None {
            Some(input.name@ + " 缺少 API Key"@)
        } else {
            None
        },
    }
}

/// The provider that an imported input makes.
pub open spec fn imported_provider(id: Seq<char>, input: ProviderInput) -> ProviderView {
    ProviderView {
        name: text::trimmed(input.name@),
        base_url: text::strip_end(input.base_url@, text::only('/')),
        api_key: non_blank(input.api_key.deep_view()),
        has_key: true,
        enabled: input.enabled,
        priority: input.priority,
        ..unknown_provider(id)
    }
}

/// The provider that an input makes under this identifier, if the input can be imported.
pub fn import_one(id: &str, input: &ProviderInput) -> (r: Result<Provider, String>)
    ensures
        r is Ok <==> import_problem(*input) is None,
        r matches Ok(provider) ==> provider@ == imported_provider(id@, *input),
        r matches Err(message) ==> import_problem(*input) == Some(message@),
{
    match validate_provider(input) {
        Ok(_) => {},
        Err(message) => {
            return Err(message);
        },
    }
    match keep_non_blank(&input.api_key) {
        Some(secret) => {
            let mut provider = new_provider(id);
            provider.name = text::trim(input.name.as_str()).to_owned();
            provider.base_url = text::trim_end_char(input.base_url.as_str(), '/').to_owned();
            provider.api_key = Some(secret);
            provider.has_key = true;
            provider.enabled = input.enabled;
            provider.priority = input.priority;
            Ok(provider)
        },
        None => Err(text::cat(input.name.as_str(), " 缺少 API Key")),
    }
}

/// The providers to store, in order, and why the input after them was refused, if one was.
#[derive(Debug)]
pub struct ImportPlan {
    pub providers: Vec<Provider>,
    pub refusal: Option<String>,
}

/// How many inputs stand before the first one that cannot be imported.
pub open spec fn importable(inputs: Seq<ProviderInput>) -> nat
    decreases inputs.len(),
{
    if inputs.len() == 0 || import_problem(inputs[0]) is Some {
        0
    } else {
        1 + importable(inputs.drop_first())
    }
}

/// Why an import stops before its end, if it does.
pub open spec fn import_refusal(inputs: Seq<ProviderInput>) -> Option<Seq<char>> {
    if inputs.len() == 0 {
        Some("没有可导入的 Provider"@)
    } else if importable(inputs) < inputs.len() {
        import_problem(inputs[importable(inputs) as int])
    } else {
        None
    }
}

/// Plans an import under these identifiers: every input up to the first one that cannot be imported
/// makes a provider.
pub fn plan_import_as(inputs: &Vec<ProviderInput>, ids: &Vec<String>) -> (plan: ImportPlan)
    requires
        ids@.len() == inputs@.len(),
    ensures
        plan.providers@.len() == importable(inputs@),
        forall|i: int|
            0 <= i < plan.providers@.len() ==> (#[trigger] plan.providers@[i])@ == imported_provider(ids@[i]@, inputs@[i]),
        plan.refusal.deep_view() == import_refusal(inputs@),
{
    let mut providers: Vec<Provider> = Vec::new();
    if inputs.len() == 0 {
        return ImportPlan { providers, refusal: Some("没有可导入的 Provider".to_owned()) };
    }
    let mut i: usize = 0;
    proof {
        assert(inputs@.skip(0) =~= inputs@);
    }
    while i < inputs.len()
        invariant
            ids@.len() == inputs@.len(),
            inputs@.len() > 0,
            i <= inputs@.len(),
            providers@.len() == i,
            importable(inputs@) == i + importable(inputs@.skip(i as int)),
            forall|k: int| 0 <= k < i ==> (#[trigger] providers@[k])@ == imported_provider(ids@[k]@, inputs@[k]),
        decreases inputs@.len() - i,
    {
        proof {
            assert(inputs@.skip(i as int)[0] == inputs@[i as int]);
            assert(inputs@.skip(i as int).drop_first() =~= inputs@.skip(i + 1));
        }
        match import_one(ids[i].as_str(), &inputs[i]) {
            Ok(provider) => {
                providers.push(provider);
            },
            Err(message) => {
                return ImportPlan { providers, refusal: Some(message) };
            },
        }
        i = i + 1;
    }
    ImportPlan { providers, refusal: None }
}

/// Plans an import: every input up to the first one that cannot be imported makes a provider with a
/// new identifier.
pub fn plan_import(inputs: &Vec<ProviderInput>) -> (plan: ImportPlan)
    ensures
        plan.providers@.len() == importable(inputs@),
        forall|i: int|
            0 <= i < plan.providers@.len() ==> crate::ids::is_uuid((#[trigger] plan.providers@[i])@.id) && plan.providers@[i]@
                == imported_provider(plan.providers@[i]@.id, inputs@[i]),
        plan.refusal.deep_view() == import_refusal(inputs@),
{
    let mut ids: Vec<String> = Vec::new();
    while ids.len() < inputs.len()
        invariant
            ids@.len() <= inputs@.len(),
            forall|k: int| 0 <= k < ids@.len() ==> crate::ids::is_uuid((#[trigger] ids@[k])@),
        decreases inputs@.len() - ids@.len(),
    {
        ids.push(crate::ids::fresh_id());
    }
    proof {
        lemma_importable(inputs@);
    }
    plan_import_as(inputs, &ids)
}

/// Puts an imported provider behind all the others.
pub fn add_imported(config: &mut AppConfig, provider: Provider)
    ensures
        final(config)@.providers == old(config)@.providers.push(provider@),
        final(config).settings == old(config).settings,
{
    config.providers.push(provider);
    assert(config@.providers =~= old(config)@.providers.push(provider@));
}

proof fn lemma_importable(inputs: Seq<ProviderInput>)
    ensures
        importable(inputs) <= inputs.len(),
        forall|i: int| 0 <= i < importable(inputs) ==> import_problem(#[trigger] inputs[i]) is None,
        importable(inputs) < inputs.len() ==> import_problem(inputs[importable(inputs) as int]) is Some,
    decreases inputs.len(),
{
    if inputs.len() > 0 && import_problem(inputs[0]) is None {
        let rest = inputs.drop_first();
        lemma_importable(rest);
        assert forall|i: int| 0 <= i < importable(inputs) implies import_problem(#[trigger] inputs[i]) is None by {
            if i > 0 {
                assert(import_problem(rest[i - 1]) is None);
            }
        }
    }
}

// -------------------------------------------------------------------------------- changes
/// Removes every provider with this identifier.
pub fn delete_provider(config: &mut AppConfig, id: &str)
    ensures
        final(config)@.providers == old(config)@.providers.filter(|p: ProviderView| p.id != id@),
        final(config).settings == old(config).settings,
        forall|i: int| 0 <= i < final(config)@.providers.len() ==> (#[trigger] final(config)@.providers[i]).id != id@,
        forall|i: int|
            0 <= i < old(config)@.providers.len() && (#[trigger] old(config)@.providers[i]).id != id@
                ==> final(config)@.providers.contains(old(config)@.providers[i]),
{
    let ghost all = config@.providers;
    let ghost keep = |p: ProviderView| p.id != id@;
    let mut kept: Vec<Provider> = Vec::new();
    let mut i: usize = 0;
    proof {
        reveal(Seq::filter);
        assert(all.take(0) =~= Seq::<ProviderView>::empty());
        assert(kept.deep_view() =~= all.take(0).filter(keep));
    }
    while i < config.providers.len()
        invariant
            all == config.providers.deep_view(),
            keep == (|p: ProviderView| p.id != id@),
            config.settings == old(config).settings,
            i <= config.providers@.len(),
            kept.deep_view() == all.take(i as int).filter(keep),
        decreases config.providers@.len() - i,
    {
        let ghost before = kept.deep_view();
        proof {
            assert(all.take(i + 1) =~= all.take(i as int).push(all[i as int]));
            order::lemma_filter_push(all.take(i as int), keep, all[i as int]);
        }
        if !text::same(config.providers[i].id.as_str(), id) {
            kept.push(config.providers[i].clone());
            assert(kept.deep_view() =~= before.push(all[i as int]));
        }
        i = i + 1;
    }
    assert(all.take(i as int) =~= all);
    config.providers = kept;
    proof {
        order::lemma_filter_members(all, keep);
        assert forall|i: int| 0 <= i < config@.providers.len() implies (#[trigger] config@.providers[i]).id != id@ by {
            assert(keep(config@.providers[i]));
        }
        assert forall|i: int| 0 <= i < all.len() && (#[trigger] all[i]).id != id@ implies config@.providers.contains(
            all[i],
        ) by {
            assert(keep(all[i]));
        }
    }
}

/// A provider after it was switched on or off: switched on, it starts afresh.
pub open spec fn toggled(p: ProviderView, enabled: bool) -> ProviderView {
    let switched = ProviderView { enabled, ..p };
    if enabled {
        switched.without_cooldown()
    } else {
        switched
    }
}

/// Switches a provider on or off.
pub fn toggle_provider(config: &mut AppConfig, id: &str, enabled: bool) -> (r: Result<(), String>)
    ensures
        r is Ok <==> find_id(old(config)@.providers, id@) is Some,
        r matches Err(message) ==> message@ == "Provider 不存在"@,
        final(config)@.providers == changed(old(config)@.providers, id@, |p: ProviderView| toggled(p, enabled)),
        final(config).settings == old(config).settings,
{
    match position(&config.providers, id) {
        Some(at) => {
            config.providers[at].enabled = enabled;
            if enabled {
                config.providers[at].clear_cooldown();
            }
            assert(config@.providers =~= old(config)@.providers.update(
                at as int,
                toggled(old(config)@.providers[at as int], enabled),
            ));
            Ok(())
        },
        None => Err("Provider 不存在".to_owned()),
    }
}

/// Pins (or releases) the model RelayDeck sends to one upstream.
pub fn set_provider_model(config: &mut AppConfig, id: &str, model: Option<String>) -> (r: Result<Provider, String>)
    ensures
        r is Ok <==> find_id(old(config)@.providers, id@) is Some,
        r matches Ok(provider) ==> existing_of(final(config)@.providers, id@) == Some(provider@),
        r matches Err(message) ==> message@ == "Provider 不存在"@,
        final(config)@.providers == changed(
            old(config)@.providers,
            id@,
            |p: ProviderView| ProviderView { model_override: trimmed_choice(model.deep_view()), ..p },
        ),
        final(config).settings == old(config).settings,
        r matches Ok(provider) ==> (existing_of(old(config)@.providers, id@) matches Some(before) && provider@ == (
        ProviderView { model_override: provider@.model_override, ..before })),
        r matches Ok(provider) ==> provider@.model_override == match model {
            Some(words) => if has_words(words@) {
                Some(text::trimmed(words@))
            } else {
                None
            },
            None => None,
        },
{
    let ghost list = config@.providers;
    let ghost change = |p: ProviderView| ProviderView { model_override: trimmed_choice(model.deep_view()), ..p };
    match position(&config.providers, id) {
        Some(at) => {
            config.providers[at].model_override = trim_choice(&model);
            proof {
                law_blank_choices_are_none(model.deep_view());
                assert(config@.providers =~= list.update(at as int, change(list[at as int])));
                lemma_change_keeps_place(list, id@, change);
            }
            Ok(config.providers[at].clone())
        },
        None => Err("Provider 不存在".to_owned()),
    }
}

/// A change that leaves the identifier alone leaves every provider in its place.
pub proof fn lemma_change_keeps_place(
    providers: Seq<ProviderView>,
    id: Seq<char>,
    change: spec_fn(ProviderView) -> ProviderView,
)
    requires
        forall|p: ProviderView| (#[trigger] change(p)).id == p.id,
    ensures
        find_id(changed(providers, id, change), id) == find_id(providers, id),
        forall|other: Seq<char>|
            other != id ==> #[trigger] existing_of(changed(providers, id, change), other) == existing_of(
                providers,
                other,
            ),
{
    let after = changed(providers, id, change);
    lemma_find_id(providers, id);
    lemma_find_id(after, id);
    assert forall|i: int| 0 <= i < providers.len() implies (#[trigger] after[i]).id == providers[i].id by {
        if let Some(at) = find_id(providers, id) {
            if i == at {
                assert(change(providers[at]).id == providers[at].id);
            }
        }
    }
    assert(find_id(after, id) == find_id(providers, id)) by {
        if let Some(at) = find_id(providers, id) {
            assert(after[at].id == id);
            if let Some(k) = find_id(after, id) {
                if k < at {
                    assert(providers[k].id != id);
                }
                if at < k {
                    assert(after[at].id != id);
                }
            }
        } else {
            if let Some(k) = find_id(after, id) {
                assert(after[k].id == providers[k].id);
            }
        }
    }
    assert forall|other: Seq<char>| other != id implies #[trigger] existing_of(after, other) == existing_of(
        providers,
        other,
    ) by {
        lemma_find_id(providers, other);
        lemma_find_id(after, other);
        if let Some(at) = find_id(providers, other) {
            assert(after[at].id == other);
            if let Some(k) = find_id(after, other) {
                if k < at {
                    assert(after[k].id == providers[k].id);
                }
                if at < k {
                    assert(after[at].id != other);
                }
            }
        } else {
            if let Some(k) = find_id(after, other) {
                assert(after[k].id == providers[k].id);
            }
        }
    }
}

/// A provider that is put straight back into rotation.
pub open spec fn released(p: ProviderView) -> ProviderView {
    ProviderView { status: ProviderStatus::Unknown, last_error: None, ..p.without_cooldown() }
}

/// Puts a cooling-down provider straight back into rotation.
pub fn clear_provider_cooldown(config: &mut AppConfig, id: &str) -> (r: Result<(), String>)
    ensures
        r is Ok <==> find_id(old(config)@.providers, id@) is Some,
        r matches Err(message) ==> message@ == "Provider 不存在"@,
        final(config)@.providers == changed(old(config)@.providers, id@, |p: ProviderView| released(p)),
        final(config).settings == old(config).settings,
{
    match position(&config.providers, id) {
        Some(at) => {
            config.providers[at].clear_cooldown();
            config.providers[at].status = ProviderStatus::Unknown;
            config.providers[at].last_error = None;
            assert(config@.providers =~= old(config)@.providers.update(
                at as int,
                released(old(config)@.providers[at as int]),
            ));
            Ok(())
        },
        None => Err("Provider 不存在".to_owned()),
    }
}

// ------------------------------------------------------------------------------- ordering
/// The list with priorities 1, 2, 3 and so on.
pub open spec fn renumbered(providers: Seq<ProviderView>) -> Seq<ProviderView> {
    Seq::new(providers.len(), |i: int| ProviderView { priority: (i + 1) as u32, ..providers[i] })
}

/// `value`, or the nearest place in a list of this length.
pub open spec fn nearest_place(value: int, len: int) -> int {
    if value < 0 {
        0
    } else if value > len - 1 {
        len - 1
    } else {
        value
    }
}

/// `s` with the item at `from` taken out and put back so that it stands at `to`.
pub open spec fn relocated<T>(s: Seq<T>, from: int, to: int) -> Seq<T> {
    s.remove(from).insert(to, s[from])
}

/// The list by priority, as every move finds it.
pub open spec fn in_priority_order(providers: Seq<ProviderView>) -> Seq<ProviderView> {
    order::stable_sort(providers, crate::routing::by_priority())
}

/// The list after a provider was moved: by priority, with that provider as many places further on
/// as far as the list goes, and priorities without gaps.
pub open spec fn moved(providers: Seq<ProviderView>, id: Seq<char>, offset: int) -> Seq<ProviderView> {
    let sorted = in_priority_order(providers);
    match find_id(sorted, id) {
        Some(at) => renumbered(relocated(sorted, at, nearest_place(at + offset, sorted.len() as int))),
        None => sorted,
    }
}

/// The place of a provider in the routing order, from which a move counts.
pub fn place_in_order(config: &AppConfig, id: &str) -> (r: Option<usize>)
    ensures
        r is Some <==> find_id(in_priority_order(config@.providers), id@) is Some,
        r matches Some(at) ==> find_id(in_priority_order(config@.providers), id@) == Some(at as int),
{
    let copy = crate::models::copied_providers(&config.providers);
    let sorted = order::sort_by(copy, crate::routing::precedes_by_priority, Ghost(crate::routing::by_priority()));
    position(&sorted, id)
}

/// Moves a provider up or down the routing order and renumbers priorities to stay gap-free.
pub fn move_provider(config: &mut AppConfig, id: &str, offset: i32) -> (r: Result<Vec<Provider>, String>)
    requires
        old(config).providers@.len() <= i32::MAX,
        find_id(in_priority_order(old(config)@.providers), id@) matches Some(at) ==> at + offset <= i32::MAX,
    ensures
        r is Ok <==> find_id(in_priority_order(old(config)@.providers), id@) is Some,
        r matches Ok(list) ==> list.deep_view() == final(config)@.providers,
        r matches Err(message) ==> message@ == "Provider 不存在"@,
        final(config)@.providers == moved(old(config)@.providers, id@, offset as int),
        final(config).settings == old(config).settings,
{
    let ghost list = config@.providers;
    let copy = crate::models::copied_providers(&config.providers);
    assert(copy@.len() == copy.deep_view().len());
    assert(list.len() == config.providers@.len());
    let mut sorted = order::sort_by(copy, crate::routing::precedes_by_priority, Ghost(crate::routing::by_priority()));
    let ghost ordered = sorted.deep_view();
    match position(&sorted, id) {
        Some(current) => {
            let wanted: i32 = current as i32 + offset;
            let last: i32 = sorted.len() as i32 - 1;
            let target: usize = if wanted < 0 {
                0
            } else if wanted > last {
                last as usize
            } else {
                wanted as usize
            };
            let provider = sorted.remove(current);
            assert(sorted.deep_view() =~= ordered.remove(current as int));
            sorted.insert(target, provider);
            let ghost after = relocated(ordered, current as int, target as int);
            assert(sorted.deep_view() =~= after);
            let mut i: usize = 0;
            while i < sorted.len()
                invariant
                    sorted@.len() == after.len() <= i32::MAX,
                    i <= sorted@.len(),
                    forall|k: int| 0 <= k < i ==> #[trigger] sorted@[k]@ == renumbered(after)[k],
                    forall|k: int| i <= k < sorted@.len() ==> #[trigger] sorted@[k]@ == after[k],
                decreases sorted@.len() - i,
            {
                let number: u32 = i as u32 + 1;
                let ghost before = sorted@;
                assert(before[i as int]@ == after[i as int]);
                sorted[i].priority = number;
                assert(forall|k: int| 0 <= k < sorted@.len() && k != i ==> sorted@[k] == before[k]);
                assert(sorted@[i as int]@ == (ProviderView { priority: number, ..before[i as int]@ }));
                i = i + 1;
            }
            assert(sorted.deep_view() =~= renumbered(after));
            let copy = crate::models::copied_providers(&sorted);
            config.providers = sorted;
            Ok(copy)
        },
        None => {
            config.providers = sorted;
            Err("Provider 不存在".to_owned())
        },
    }
}

// ------------------------------------------------------------------------------- starting
/// A provider as it is when the application starts: its key comes from the credential store, and
/// what went on before is forgotten.
pub open spec fn awakened(p: ProviderView, secret: Option<Seq<char>>) -> ProviderView {
    ProviderView {
        api_key: secret,
        has_key: secret is Some,
        status: ProviderStatus::Unknown,
        ..p.without_cooldown()
    }
}

/// Prepares a stored provider for a new run.
pub fn awaken(provider: &mut Provider, secret: Option<String>)
    ensures
        final(provider)@ == awakened(old(provider)@, secret.deep_view()),
{
    provider.has_key = secret.is_some();
    provider.api_key = secret;
    provider.status = ProviderStatus::Unknown;
    provider.clear_cooldown();
}

/// Forgets how many requests the providers have served and failed.
pub fn reset_counts(config: &mut AppConfig)
    ensures
        final(config)@.providers == old(config)@.providers.map_values(
            |p: ProviderView| ProviderView { served_count: 0, failed_count: 0, ..p },
        ),
        final(config).settings == old(config).settings,
{
    let ghost list = config@.providers;
    let mut i: usize = 0;
    while i < config.providers.len()
        invariant
            config.settings == old(config).settings,
            config.providers@.len() == list.len(),
            i <= config.providers@.len(),
            forall|k: int|
                0 <= k < i ==> #[trigger] config.providers@[k]@ == (ProviderView { served_count: 0, failed_count: 0, ..list[k] }),
            forall|k: int| i <= k < list.len() ==> #[trigger] config.providers@[k]@ == list[k],
        decreases config.providers@.len() - i,
    {
        let ghost before = config.providers@;
        assert(before[i as int]@ == list[i as int]);
        config.providers[i].served_count = 0;
        config.providers[i].failed_count = 0;
        assert(forall|k: int| 0 <= k < list.len() && k != i ==> config.providers@[k] == before[k]);
        assert(config.providers@[i as int]@ == (ProviderView { served_count: 0, failed_count: 0, ..before[i as int]@ }));
        i = i + 1;
    }
    assert(config@.providers =~= list.map_values(
        |p: ProviderView| ProviderView { served_count: 0, failed_count: 0, ..p },
    ));
}

// ------------------------------------------------------------------------ the Codex target
/// How a provider ranks by its last probe: healthy ones first, those that failed last.
pub open spec fn rank_of(status: ProviderStatus) -> u8 {
    match status {
        ProviderStatus::Healthy => 0,
        ProviderStatus::Checking => 1,
        ProviderStatus::Unknown => 1,
        ProviderStatus::Unhealthy => 2,
    }
}

/// How a provider ranks by its last probe.
pub fn health_rank(status: ProviderStatus) -> (rank: u8)
    ensures
        rank == rank_of(status),
{
    match status {
        ProviderStatus::Healthy => 0,
        ProviderStatus::Checking => 1,
        ProviderStatus::Unknown => 1,
        ProviderStatus::Unhealthy => 2,
    }
}

/// By the last probe, then by priority.
pub open spec fn by_health_then_priority() -> spec_fn(ProviderView, ProviderView) -> bool {
    |a: ProviderView, b: ProviderView|
        rank_of(a.status) < rank_of(b.status) || (rank_of(a.status) == rank_of(b.status) && a.priority <= b.priority)
}

fn precedes_by_health(a: &&Provider, b: &&Provider) -> (r: bool)
    ensures
        r == by_health_then_priority()((*a)@, (*b)@),
{
    health_rank(a.status) < health_rank(b.status) || (health_rank(a.status) == health_rank(b.status) && a.priority
        <= b.priority)
}

/// A model is known for the provider.
pub open spec fn has_model(p: ProviderView) -> bool {
    p.effective_model().len() > 0 && p.effective_model() != crate::discovery::pending_model()
}

/// The first provider for which a model is known.
pub open spec fn first_with_model(providers: Seq<ProviderView>) -> Option<ProviderView>
    decreases providers.len(),
{
    if providers.len() == 0 {
        None
    } else if has_model(providers[0]) {
        Some(providers[0])
    } else {
        first_with_model(providers.drop_first())
    }
}

/// The provider whose model Codex is given: the best that could serve traffic.
pub open spec fn target_of(providers: Seq<ProviderView>) -> Option<ProviderView> {
    first_with_model(order::stable_sort(crate::models::routable_of(providers), by_health_then_priority()))
}

/// Codex only needs one concrete model name; the gateway realigns it per upstream on failover.
/// Prefer a healthy node, but a not-yet-probed one still beats refusing to write the config.
pub fn codex_target(config: &AppConfig) -> (r: Result<(String, String), String>)
    ensures
        r is Ok <==> target_of(config@.providers) is Some,
        r matches Ok((name, model)) ==> (target_of(config@.providers) matches Some(p) && name@ == p.name && model@
            == p.effective_model()),
        r matches Err(message) ==> message@ == "请先导入并测活至少一个 Provider"@,
{
    let candidates = order::sort_by(config.routable(), precedes_by_health, Ghost(by_health_then_priority()));
    let ghost all = candidates.deep_view();
    let mut i: usize = 0;
    proof {
        assert(all.skip(0) =~= all);
    }
    while i < candidates.len()
        invariant
            all == candidates.deep_view(),
            first_with_model(all) == target_of(config@.providers),
            i <= candidates@.len(),
            first_with_model(all) == first_with_model(all.skip(i as int)),
        decreases candidates@.len() - i,
    {
        let provider = candidates[i];
        proof {
            assert(all.skip(i as int)[0] == provider@);
            assert(all.skip(i as int).drop_first() =~= all.skip(i + 1));
        }
        let model = provider.effective_model();
        if !model.is_empty() && !text::same(model, "自动获取中") {
            return Ok((provider.name.clone(), model.to_owned()));
        }
        i = i + 1;
    }
    Err("请先导入并测活至少一个 Provider".to_owned())
}

// ------------------------------------------------------------------------------------ laws
/// What was saved is found again under its identifier, and every other provider is as it was.
pub proof fn law_saved_provider_is_found(providers: Seq<ProviderView>, provider: ProviderView)
    ensures
        existing_of(upserted(providers, provider), provider.id) == Some(provider),
        forall|other: Seq<char>|
            other != provider.id ==> #[trigger] existing_of(upserted(providers, provider), other) == existing_of(
                providers,
                other,
            ),
{
    let id = provider.id;
    lemma_find_id(providers, id);
    if find_id(providers, id) is Some {
        let change = |p: ProviderView| ProviderView { id: p.id, ..provider };
        lemma_change_keeps_place(providers, id, change);
        assert(changed(providers, id, change) =~= upserted(providers, provider));
    } else {
        let after = providers.push(provider);
        assert(after.drop_last() =~= providers);
        assert forall|other: Seq<char>| other != id implies #[trigger] existing_of(after, other) == existing_of(
            providers,
            other,
        ) by {
            lemma_find_id(providers, other);
        }
    }
}

/// Saving gives a provider a clean slate and a key, and keeps what is known of it.
pub proof fn law_saving_keeps_what_is_known(existing: ProviderView, input: ProviderInput, now: Moment)
    ensures
        ({
            let saved = saved_provider(Some(existing), existing.id, input);
            &&& !saved.in_cooldown(now)
            &&& saved.consecutive_failures == 0
            &&& saved.available_models == existing.available_models
            &&& saved.health_history == existing.health_history
            &&& saved.served_count == existing.served_count
            &&& saved.failed_count == existing.failed_count
            &&& saved.status == existing.status
        }),
        save_problem(Some(existing), input) is None ==> saved_provider(Some(existing), existing.id, input).api_key is Some,
{
}

/// Saving the same input once more changes nothing.
pub proof fn law_saving_again_changes_nothing(existing: Option<ProviderView>, id: Seq<char>, input: ProviderInput)
    ensures
        saved_provider(Some(saved_provider(existing, id, input)), id, input) == saved_provider(existing, id, input),
{
}

/// A provider that was deleted is gone, and every other one is as it was.
pub proof fn law_deleted_provider_is_gone(providers: Seq<ProviderView>, id: Seq<char>)
    ensures
        ({
            let after = providers.filter(|p: ProviderView| p.id != id);
            &&& existing_of(after, id) is None
            &&& forall|other: Seq<char>|
                other != id ==> #[trigger] existing_of(after, other) == existing_of(providers, other)
        }),
    decreases providers.len(),
{
    let keep = |p: ProviderView| p.id != id;
    let after = providers.filter(keep);
    reveal(Seq::filter);
    if providers.len() > 0 {
        let rest = providers.drop_last();
        let kept = rest.filter(keep);
        law_deleted_provider_is_gone(rest, id);
        lemma_find_id(kept, id);
        lemma_find_id(rest, id);
        assert(kept.push(providers.last()).drop_last() =~= kept);
        assert forall|other: Seq<char>| other != id implies #[trigger] existing_of(after, other) == existing_of(
            providers,
            other,
        ) by {
            assert(existing_of(kept, other) == existing_of(rest, other));
            lemma_find_id(kept, other);
            lemma_find_id(rest, other);
        }
    }
}

proof fn lemma_renumbered_is_in_order(s: Seq<ProviderView>)
    requires
        s.len() <= i32::MAX,
    ensures
        in_priority_order(renumbered(s)) == renumbered(s),
{
    let le = crate::routing::by_priority();
    let r = renumbered(s);
    assert forall|i: int, j: int| 0 <= i < j < r.len() implies #[trigger] le(r[i], r[j]) by {}
    order::lemma_in_order_already(r, le);
}

/// After a move the priorities are 1, 2, 3 and so on without gaps, and the list is in their order.
pub proof fn law_moves_leave_no_gaps(providers: Seq<ProviderView>, id: Seq<char>, offset: int)
    requires
        providers.len() <= i32::MAX,
        find_id(in_priority_order(providers), id) is Some,
    ensures
        moved(providers, id, offset).len() == providers.len(),
        forall|i: int| 0 <= i < providers.len() ==> (#[trigger] moved(providers, id, offset)[i]).priority == i + 1,
        in_priority_order(moved(providers, id, offset)) == moved(providers, id, offset),
{
    let sorted = in_priority_order(providers);
    order::lemma_sort_keeps_items(providers, crate::routing::by_priority());
    lemma_find_id(sorted, id);
    let at = find_id(sorted, id)->0;
    lemma_renumbered_is_in_order(relocated(sorted, at, nearest_place(at + offset, sorted.len() as int)));
}

/// A move changes nothing but priorities and the place of one provider: it ends up as many places
/// further on, as far as the list goes, and the others keep their order.
pub proof fn law_moves_keep_the_others(providers: Seq<ProviderView>, id: Seq<char>, offset: int)
    requires
        find_id(in_priority_order(providers), id) is Some,
    ensures
        ({
            let sorted = in_priority_order(providers);
            let at = find_id(sorted, id)->0;
            let to = nearest_place(at + offset, sorted.len() as int);
            let after = moved(providers, id, offset);
            &&& after.len() == sorted.len()
            &&& after[to] == (ProviderView { priority: (to + 1) as u32, ..sorted[at] })
            &&& forall|i: int|
                0 <= i < sorted.len() - 1 ==> (ProviderView { priority: 0, ..(#[trigger] after.remove(to)[i]) }) == (
                ProviderView { priority: 0, ..sorted.remove(at)[i] })
        }),
{
    let sorted = in_priority_order(providers);
    lemma_find_id(sorted, id);
}

proof fn lemma_relocated_and_back<T>(s: Seq<T>, at: int, to: int)
    requires
        0 <= at < s.len(),
        0 <= to < s.len(),
    ensures
        relocated(relocated(s, at, to), to, at) == s,
        relocated(s, at, at) == s,
{
    let there = relocated(s, at, to);
    assert(there.remove(to) =~= s.remove(at));
    assert(s.remove(at).insert(at, s[at]) =~= s);
}

proof fn lemma_renumbered_relocation(s: Seq<ProviderView>, at: int, to: int)
    requires
        0 <= at < s.len(),
        0 <= to < s.len(),
    ensures
        renumbered(relocated(renumbered(s), at, to)) == renumbered(relocated(s, at, to)),
{
    assert(renumbered(relocated(renumbered(s), at, to)) =~= renumbered(relocated(s, at, to)));
}

proof fn lemma_relocated_is_found(s: Seq<ProviderView>, at: int, to: int)
    requires
        0 <= at < s.len(),
        0 <= to < s.len(),
        forall|i: int, j: int| 0 <= i < j < s.len() ==> #[trigger] s[i].id != #[trigger] s[j].id,
    ensures
        find_id(renumbered(relocated(s, at, to)), s[at].id) == Some(to),
{
    let rest = s.remove(at);
    let after = renumbered(relocated(s, at, to));
    lemma_find_id(after, s[at].id);
    assert(after[to].id == s[at].id);
    assert forall|k: int| 0 <= k < rest.len() implies (#[trigger] rest[k]).id != s[at].id by {
        if k < at {
            assert(s[k].id != s[at].id);
        } else {
            assert(s[at].id != s[k + 1].id);
        }
    }
    let found = find_id(after, s[at].id)->0;
    if found < to {
        assert(after[found].id == rest[found].id);
    }
    if found > to {
        assert(after[found].id == rest[found - 1].id);
    }
}

/// A provider that was moved within the list is moved back by the opposite move.
pub proof fn law_moves_can_be_undone(providers: Seq<ProviderView>, id: Seq<char>, offset: int)
    requires
        providers.len() <= i32::MAX,
        forall|i: int, j: int| 0 <= i < j < providers.len() ==> #[trigger] providers[i].id != #[trigger] providers[j].id,
        find_id(in_priority_order(providers), id) matches Some(at) && 0 <= at + offset < providers.len(),
    ensures
        moved(moved(providers, id, offset), id, -offset) == moved(providers, id, 0),
{
    let sorted = in_priority_order(providers);
    order::lemma_sort_keeps_items(providers, crate::routing::by_priority());
    lemma_find_id(sorted, id);
    let at = find_id(sorted, id)->0;
    let to = at + offset;
    let there = relocated(sorted, at, to);
    lemma_sort_keeps_ids_apart(providers);
    lemma_relocated_is_found(sorted, at, to);
    lemma_renumbered_is_in_order(there);
    lemma_renumbered_relocation(there, to, at);
    lemma_relocated_and_back(sorted, at, to);
}

proof fn lemma_sort_keeps_ids_apart(providers: Seq<ProviderView>)
    requires
        forall|i: int, j: int| 0 <= i < j < providers.len() ==> #[trigger] providers[i].id != #[trigger] providers[j].id,
    ensures
        ({
            let sorted = in_priority_order(providers);
            forall|i: int, j: int| 0 <= i < j < sorted.len() ==> #[trigger] sorted[i].id != #[trigger] sorted[j].id
        }),
{
    broadcast use vstd::seq_lib::group_to_multiset_ensures;

    let le = crate::routing::by_priority();
    let sorted = in_priority_order(providers);
    order::lemma_sort_keeps_items(providers, le);
    assert forall|i: int, j: int| 0 <= i < j < sorted.len() implies #[trigger] sorted[i].id != #[trigger] sorted[j].id by {
        if sorted[i].id == sorted[j].id {
            assert(sorted.contains(sorted[i]) && sorted.contains(sorted[j]));
            assert(providers.to_multiset().contains(sorted[i]));
            assert(providers.to_multiset().contains(sorted[j]));
            let a = choose|a: int| 0 <= a < providers.len() && providers[a] == sorted[i];
            let b = choose|b: int| 0 <= b < providers.len() && providers[b] == sorted[j];
            if a < b {
                assert(providers[a].id != providers[b].id);
            } else if b < a {
                assert(providers[b].id != providers[a].id);
            } else {
                assert(providers.no_duplicates()) by {
                    assert forall|x: int, y: int| 0 <= x < providers.len() && 0 <= y < providers.len() && x != y implies providers[x]
                        != providers[y] by {
                        if x < y {
                            assert(providers[x].id != providers[y].id);
                        } else {
                            assert(providers[y].id != providers[x].id);
                        }
                    }
                }
                providers.lemma_multiset_has_no_duplicates();
                assert(providers.to_multiset().count(sorted[i]) == 1);
                lemma_counted_twice(sorted, i, j);
            }
        }
    }
}

proof fn lemma_counted_twice(s: Seq<ProviderView>, i: int, j: int)
    requires
        0 <= i < j < s.len(),
        s[i] == s[j],
    ensures
        s.to_multiset().count(s[i]) >= 2,
{
    broadcast use vstd::seq_lib::group_to_multiset_ensures;

    let front = s.take(j);
    let back = s.skip(j);
    assert(s =~= front + back);
    vstd::seq_lib::lemma_multiset_commutative(front, back);
    assert(front[i] == s[i] && back[0] == s[i]);
    assert(front.contains(s[i]) && back.contains(s[i]));
    assert(front.to_multiset().count(s[i]) >= 1 && back.to_multiset().count(s[i]) >= 1);
}

proof fn lemma_first_with_model(s: Seq<ProviderView>)
    ensures
        first_with_model(s) matches Some(p) ==> exists|k: int|
            0 <= k < s.len() && #[trigger] s[k] == p && has_model(p) && forall|i: int| 0 <= i < k ==> !has_model(#[trigger] s[i]),
        first_with_model(s) is None ==> forall|i: int| 0 <= i < s.len() ==> !has_model(#[trigger] s[i]),
    decreases s.len(),
{
    if s.len() > 0 {
        let rest = s.drop_first();
        lemma_first_with_model(rest);
        if has_model(s[0]) {
            assert(s[0] == first_with_model(s)->0);
        } else {
            if let Some(p) = first_with_model(rest) {
                let k = choose|k: int|
                    0 <= k < rest.len() && #[trigger] rest[k] == p && has_model(p) && forall|i: int|
                        0 <= i < k ==> !has_model(#[trigger] rest[i]);
                assert(s[k + 1] == p);
                assert forall|i: int| 0 <= i < k + 1 implies !has_model(#[trigger] s[i]) by {
                    if i > 0 {
                        assert(!has_model(rest[i - 1]));
                    }
                }
            } else {
                assert forall|i: int| 0 <= i < s.len() implies !has_model(#[trigger] s[i]) by {
                    if i > 0 {
                        assert(!has_model(rest[i - 1]));
                    }
                }
            }
        }
    }
}

proof fn lemma_first_with_model_push(s: Seq<ProviderView>, p: ProviderView)
    ensures
        first_with_model(s.push(p)) == if first_with_model(s) is Some {
            first_with_model(s)
        } else if has_model(p) {
            Some(p)
        } else {
            None
        },
    decreases s.len(),
{
    if s.len() > 0 {
        assert(s.push(p).drop_first() =~= s.drop_first().push(p));
        lemma_first_with_model_push(s.drop_first(), p);
    } else {
        assert(s.push(p).drop_first() =~= s);
    }
}

proof fn lemma_none_with_model(s: Seq<ProviderView>, f: spec_fn(ProviderView) -> bool)
    requires
        forall|i: int| 0 <= i < s.len() && f(#[trigger] s[i]) ==> !has_model(s[i]),
    ensures
        first_with_model(s.filter(f)) is None,
{
    order::lemma_filter_members(s, f);
    lemma_first_with_model(s.filter(f));
    if let Some(p) = first_with_model(s.filter(f)) {
        let k = choose|k: int| 0 <= k < s.filter(f).len() && #[trigger] s.filter(f)[k] == p && has_model(p);
        assert(f(s.filter(f)[k]) && s.contains(s.filter(f)[k]));
    }
}

proof fn lemma_first_stays(s: Seq<ProviderView>, f: spec_fn(ProviderView) -> bool)
    requires
        first_with_model(s) matches Some(p) && f(p),
    ensures
        first_with_model(s.filter(f)) == first_with_model(s),
    decreases s.len(),
{
    let t = s.drop_last();
    let x = s.last();
    assert(s =~= t.push(x));
    lemma_first_with_model_push(t, x);
    order::lemma_filter_push(t, f, x);
    lemma_first_with_model_push(t.filter(f), x);
    if first_with_model(t) is Some {
        lemma_first_stays(t, f);
    } else {
        lemma_first_with_model(t);
        lemma_none_with_model(t, f);
    }
}

proof fn lemma_first_kept(s: Seq<ProviderView>, f: spec_fn(ProviderView) -> bool)
    requires
        first_with_model(s.filter(f)) is Some,
    ensures
        exists|at: int|
            #![trigger s[at]]
            0 <= at < s.len() && s[at] == first_with_model(s.filter(f))->0 && forall|i: int|
                0 <= i < at ==> !(f(#[trigger] s[i]) && has_model(s[i])),
    decreases s.len(),
{
    reveal(Seq::filter);
    let t = s.drop_last();
    let x = s.last();
    assert(s =~= t.push(x));
    order::lemma_filter_push(t, f, x);
    lemma_first_with_model_push(t.filter(f), x);
    let best = first_with_model(s.filter(f))->0;
    if first_with_model(t.filter(f)) is Some {
        lemma_first_kept(t, f);
        let at = choose|at: int|
            #![trigger t[at]]
            0 <= at < t.len() && t[at] == best && forall|i: int|
                0 <= i < at ==> !(f(#[trigger] t[i]) && has_model(t[i]));
        assert(s[at] == best);
        assert forall|i: int| 0 <= i < at implies !(f(#[trigger] s[i]) && has_model(s[i])) by {
            assert(!(f(t[i]) && has_model(t[i])));
        }
    } else {
        let at = s.len() - 1;
        assert(s[at] == best);
        order::lemma_filter_members(t, f);
        lemma_first_with_model(t.filter(f));
        assert forall|i: int| 0 <= i < at implies !(f(#[trigger] s[i]) && has_model(s[i])) by {
            if f(t[i]) {
                let k = choose|k: int| 0 <= k < t.filter(f).len() && t.filter(f)[k] == t[i];
                assert(!has_model(t.filter(f)[k]));
            }
        }
    }
}

/// Codex is given the model of a provider that could serve traffic and whose model is known; no such
/// provider is healthier, none of the same health has a lower number, and of several that are as good the
/// first one in the list is taken. Only where there is no such provider at all is Codex given none.
pub proof fn law_codex_gets_the_best_provider(providers: Seq<ProviderView>)
    ensures
        target_of(providers) matches Some(best) ==> {
            &&& providers.contains(best)
            &&& best.is_routable()
            &&& has_model(best)
            &&& forall|i: int|
                0 <= i < providers.len() && (#[trigger] providers[i]).is_routable() && has_model(providers[i])
                    ==> by_health_then_priority()(best, providers[i])
            &&& exists|k: int|
                #![trigger providers[k]]
                0 <= k < providers.len() && providers[k] == best && forall|i: int|
                    0 <= i < k && (#[trigger] providers[i]).is_routable() && has_model(providers[i])
                        ==> !by_health_then_priority()(providers[i], best)
        },
        target_of(providers) is None ==> forall|i: int|
            0 <= i < providers.len() ==> !((#[trigger] providers[i]).is_routable() && has_model(providers[i])),
{
    broadcast use vstd::seq_lib::group_to_multiset_ensures;

    let keep = |p: ProviderView| p.is_routable();
    let le = by_health_then_priority();
    let routable = providers.filter(keep);
    let sorted = order::stable_sort(routable, le);
    order::lemma_filter_members(providers, keep);
    assert(order::is_ranking(le));
    order::lemma_sort_ascending(routable, le);
    order::lemma_sort_keeps_items(routable, le);
    lemma_first_with_model(sorted);
    assert forall|i: int| 0 <= i < providers.len() && (#[trigger] providers[i]).is_routable() implies exists|m: int|
        0 <= m < sorted.len() && #[trigger] sorted[m] == providers[i] by {
        assert(keep(providers[i]));
        assert(routable.contains(providers[i]));
        assert(routable.to_multiset().contains(providers[i]));
        assert(sorted.contains(providers[i]));
    }
    if let Some(best) = target_of(providers) {
        let k = choose|k: int|
            0 <= k < sorted.len() && #[trigger] sorted[k] == best && has_model(best) && forall|i: int|
                0 <= i < k ==> !has_model(#[trigger] sorted[i]);
        assert(sorted.contains(best));
        assert(routable.to_multiset().contains(best));
        assert(routable.contains(best));
        let r = choose|r: int| 0 <= r < routable.len() && routable[r] == best;
        assert(keep(routable[r]));
        assert forall|i: int|
            0 <= i < providers.len() && (#[trigger] providers[i]).is_routable() && has_model(providers[i]) implies le(
            best,
            providers[i],
        ) by {
            let m = choose|m: int| 0 <= m < sorted.len() && #[trigger] sorted[m] == providers[i];
            if m < k {
                assert(!has_model(sorted[m]));
            }
            if k < m {
                assert(le(sorted[k], sorted[m]));
            }
        }
        let is_equal = order::same_rank(best, le);
        let is_rival = |p: ProviderView| keep(p) && is_equal(p);
        assert(is_equal(best)) by {
            assert(le(best, best));
        }
        lemma_first_stays(sorted, is_equal);
        order::lemma_sort_stable(routable, le, best);
        order::lemma_filter_twice(providers, keep, is_equal, is_rival);
        lemma_first_kept(providers, is_rival);
        let at = choose|at: int|
            #![trigger providers[at]]
            0 <= at < providers.len() && providers[at] == best && forall|i: int|
                0 <= i < at ==> !(is_rival(#[trigger] providers[i]) && has_model(providers[i]));
        assert forall|i: int| 0 <= i < at && (#[trigger] providers[i]).is_routable() && has_model(providers[i]) implies !le(
            providers[i],
            best,
        ) by {
            assert(!is_rival(providers[i]));
        }
    }
}

/// The list after these providers were added one after the other.
pub open spec fn with_imported(providers: Seq<ProviderView>, imported: Seq<ProviderView>) -> Seq<ProviderView>
    decreases imported.len(),
{
    if imported.len() == 0 {
        providers
    } else {
        with_imported(providers, imported.drop_last()).push(imported.last())
    }
}

/// An import leaves the providers that were there as they were and puts the imported ones behind them,
/// in the order of the inputs and each under the identifier that was drawn for it. Where every input is
/// valid, all of them are imported and nothing is refused, unless there was none to import.
pub proof fn law_imports_are_appended(providers: Seq<ProviderView>, inputs: Seq<ProviderInput>, ids: Seq<Seq<char>>)
    requires
        ids.len() == inputs.len(),
    ensures
        ({
            let imported = Seq::new(importable(inputs), |i: int| imported_provider(ids[i], inputs[i]));
            let after = with_imported(providers, imported);
            &&& after == providers + imported
            &&& after.len() == providers.len() + importable(inputs)
            &&& forall|i: int| 0 <= i < providers.len() ==> #[trigger] after[i] == providers[i]
            &&& (forall|i: int| 0 <= i < inputs.len() ==> import_problem(#[trigger] inputs[i]) is None) ==> importable(
                inputs,
            ) == inputs.len() && (import_refusal(inputs) is None <==> inputs.len() > 0)
            &&& inputs.len() == 0 ==> after == providers
        }),
{
    let imported = Seq::new(importable(inputs), |i: int| imported_provider(ids[i], inputs[i]));
    lemma_with_imported(providers, imported);
    lemma_importable(inputs);
    assert(inputs.len() == 0 ==> providers + imported =~= providers);
}

proof fn lemma_with_imported(providers: Seq<ProviderView>, imported: Seq<ProviderView>)
    ensures
        with_imported(providers, imported) == providers + imported,
    decreases imported.len(),
{
    if imported.len() > 0 {
        lemma_with_imported(providers, imported.drop_last());
    }
    assert(with_imported(providers, imported) =~= providers + imported);
}

/// A text that is more than white space.
pub open spec fn has_words(s: Seq<char>) -> bool {
    exists|i: int| 0 <= i < s.len() && !text::is_white(#[trigger] s[i])
}

/// A choice that is blank is none.
pub proof fn law_blank_choices_are_none(value: Option<Seq<char>>)
    ensures
        value matches Some(words) ==> if has_words(words) {
            non_blank(value) == value && trimmed_choice(value) == Some(text::trimmed(words))
        } else {
            non_blank(value) is None && trimmed_choice(value) is None
        },
        value is None ==> non_blank(value) is None && trimmed_choice(value) is None,
{
    if let Some(words) = value {
        text::law_trimming_drops_the_white_ends(words);
    }
}

/// A new key takes the place of the one that was saved before; only where the input holds none, or a blank
/// one, does the provider keep its former key. Without either, nothing is saved.
pub proof fn law_new_keys_replace_old_ones(existing: Option<ProviderView>, id: Seq<char>, input: ProviderInput)
    ensures
        ({
            let saved = saved_provider(existing, id, input);
            let given = input.api_key matches Some(key) && has_words(key@);
            &&& given ==> saved.api_key == Some(input.api_key->0@)
            &&& !given ==> saved.api_key == match existing {
                Some(old) => old.api_key,
                None => None,
            }
            &&& saved.api_key is None ==> save_problem(existing, input) is Some
        }),
{
    law_blank_choices_are_none(input.api_key.deep_view());
}

/// An input can be saved exactly where its name is not blank, its address is one of the web, its priority is
/// from 1 to 99, and there is a key: its own, or the one that was saved before. What is wrong first is named.
pub proof fn law_inputs_that_can_be_saved(existing: Option<ProviderView>, input: ProviderInput)
    ensures
        ({
            let named = has_words(input.name@);
            let addressed = "http://"@.is_prefix_of(input.base_url@) || "https://"@.is_prefix_of(input.base_url@);
            let placed = 1 <= input.priority <= 99;
            let keyed = (input.api_key matches Some(key) && has_words(key@)) || (existing matches Some(old) && old.api_key
                is Some);
            &&& input_problem(input) is None <==> named && addressed && placed
            &&& save_problem(existing, input) is None <==> named && addressed && placed && keyed
            &&& !named ==> save_problem(existing, input) == Some("名称不能为空"@)
            &&& named && !addressed ==> save_problem(existing, input) == Some("API 地址必须以 http:// 或 https:// 开头"@)
            &&& named && addressed && !placed ==> save_problem(existing, input) == Some("路由优先级必须在 1 到 99 之间"@)
            &&& named && addressed && placed && !keyed ==> save_problem(existing, input) == Some("API Key 不能为空"@)
        }),
{
    law_blank_choices_are_none(input.api_key.deep_view());
    text::law_trimming_drops_the_white_ends(input.name@);
}

/// What is saved of an input: its name without the white space around it, its address without the slashes at
/// its end, its place and whether it is switched on, its pin, and its model where it names one. The provider
/// starts afresh without failures, and all else that was known of it stays; of a new one nothing is known.
pub proof fn law_inputs_are_saved(existing: Option<ProviderView>, id: Seq<char>, input: ProviderInput)
    ensures
        ({
            let saved = saved_provider(existing, id, input);
            &&& saved.id == id && saved.name == text::trimmed(input.name@) && saved.enabled == input.enabled
                && saved.priority == input.priority && saved.has_key
            &&& saved.base_url == text::strip_end(input.base_url@, text::only('/'))
            &&& (input.model matches Some(model) && has_words(model@)) ==> saved.model == input.model->0@
            &&& !(input.model matches Some(model) && has_words(model@)) ==> saved.model == match existing {
                Some(old) => old.model,
                None => "自动获取中"@,
            }
            &&& (input.model_override matches Some(pin) && has_words(pin@)) ==> saved.model_override == Some(
                text::trimmed(input.model_override->0@),
            )
            &&& !(input.model_override matches Some(pin) && has_words(pin@)) ==> saved.model_override is None
            &&& saved.consecutive_failures == 0 && saved.cooldown_until is None
            &&& existing matches Some(old) ==> saved.available_models == old.available_models && saved.status == old.status
                && saved.latency_ms == old.latency_ms && saved.last_checked_at == old.last_checked_at && saved.last_error
                == old.last_error && saved.served_count == old.served_count && saved.failed_count == old.failed_count
                && saved.health_history == old.health_history
            &&& existing is None ==> saved.available_models.len() == 0 && saved.status == ProviderStatus::Unknown
                && saved.latency_ms is None && saved.last_checked_at is None && saved.last_error is None
                && saved.served_count == 0 && saved.failed_count == 0 && saved.health_history.len() == 0
        }),
{
    law_blank_choices_are_none(input.model.deep_view());
    law_blank_choices_are_none(input.model_override.deep_view());
}

/// What is imported of an input: the same as is saved of a new one with a key of its own, but for its model
/// and its pin, which are left open. It is refused for the same reasons, and without a key.
pub proof fn law_inputs_are_imported(id: Seq<char>, input: ProviderInput)
    ensures
        ({
            let made = imported_provider(id, input);
            let keyed = input.api_key matches Some(key) && has_words(key@);
            &&& made.id == id && made.name == text::trimmed(input.name@) && made.enabled == input.enabled && made.priority
                == input.priority && made.has_key
            &&& made.base_url == text::strip_end(input.base_url@, text::only('/'))
            &&& keyed ==> made.api_key == Some(input.api_key->0@)
            &&& made.model == "自动获取中"@ && made.model_override is None && made.available_models.len() == 0
            &&& made.status == ProviderStatus::Unknown && made.latency_ms is None && made.last_checked_at is None
            &&& made.consecutive_failures == 0 && made.cooldown_until is None && made.served_count == 0
                && made.failed_count == 0 && made.health_history.len() == 0 && made.last_error is None
            &&& import_problem(input) is None <==> has_words(input.name@) && ("http://"@.is_prefix_of(input.base_url@)
                || "https://"@.is_prefix_of(input.base_url@)) && 1 <= input.priority <= 99 && keyed
            &&& input_problem(input) is None && !keyed ==> import_problem(input) == Some(input.name@ + " 缺少 API Key"@)
        }),
{
    law_blank_choices_are_none(input.api_key.deep_view());
    text::law_trimming_drops_the_white_ends(input.name@);
}

/// A change is made to the first provider with the identifier, and to no other; where there is none, nothing
/// changes. Saving puts a provider there, or behind all the others.
pub proof fn law_changes_touch_one_provider(
    providers: Seq<ProviderView>,
    id: Seq<char>,
    change: spec_fn(ProviderView) -> ProviderView,
    provider: ProviderView,
    at: int,
)
    requires
        provider.id == id,
        0 <= at <= providers.len(),
        forall|i: int| 0 <= i < at ==> (#[trigger] providers[i]).id != id,
        at < providers.len() ==> providers[at].id == id,
    ensures
        at < providers.len() ==> changed(providers, id, change) == providers.update(at, change(providers[at])),
        at < providers.len() ==> existing_of(providers, id) == Some(providers[at]),
        at < providers.len() ==> upserted(providers, provider) == providers.update(at, provider),
        at == providers.len() ==> changed(providers, id, change) == providers && existing_of(providers, id) is None
            && upserted(providers, provider) == providers.push(provider),
{
    lemma_find_id(providers, id);
    if at == providers.len() {
        if let Some(k) = find_id(providers, id) {
            assert(providers[k].id == id);
        }
    }
}

/// Switching a provider on gives it a fresh start, and switching it off leaves all else as it is. Ending its
/// pause by hand forgets its failures, its error and what the last probe said. After a restart of the
/// application it has the key from the credential store, and no probe and no pause counts any more.
pub proof fn law_fresh_starts(p: ProviderView, secret: Option<Seq<char>>)
    ensures
        toggled(p, true) == (ProviderView { enabled: true, consecutive_failures: 0, cooldown_until: None, ..p }),
        toggled(p, false) == (ProviderView { enabled: false, ..p }),
        released(p) == (ProviderView {
            status: ProviderStatus::Unknown,
            last_error: None,
            consecutive_failures: 0,
            cooldown_until: None,
            ..p
        }),
        awakened(p, secret) == (ProviderView {
            api_key: secret,
            has_key: secret is Some,
            status: ProviderStatus::Unknown,
            consecutive_failures: 0,
            cooldown_until: None,
            ..p
        }),
{
}

/// The list in its order: by priority, the lowest number first; the same providers, and those of one number
/// as they came.
pub proof fn law_lists_are_ordered_by_number(providers: Seq<ProviderView>, number: u32)
    ensures
        ({
            let sorted = in_priority_order(providers);
            &&& sorted.to_multiset() == providers.to_multiset()
            &&& forall|i: int, j: int|
                0 <= i < j < sorted.len() ==> (#[trigger] sorted[i]).priority <= (#[trigger] sorted[j]).priority
            &&& sorted.filter(|p: ProviderView| p.priority == number) == providers.filter(
                |p: ProviderView| p.priority == number,
            )
        }),
{
    let le = crate::routing::by_priority();
    let sorted = in_priority_order(providers);
    assert(order::is_ranking(le));
    order::lemma_sort_keeps_items(providers, le);
    order::lemma_sort_ascending(providers, le);
    assert forall|i: int, j: int| 0 <= i < j < sorted.len() implies (#[trigger] sorted[i]).priority <= (
    #[trigger] sorted[j]).priority by {
        assert(le(sorted[i], sorted[j]));
    }
    let x = ProviderView { priority: number, ..unknown_provider(Seq::empty()) };
    order::lemma_sort_stable(providers, le, x);
    assert(order::same_rank(x, le) =~= (|p: ProviderView| p.priority == number));
}

/// Moving a provider by an offset puts it that many places further down the list, or up where the offset is
/// negative, but never beyond an end. The others keep their order, and all are numbered from 1 on.
pub proof fn law_moves_go_as_far_as_they_can(providers: Seq<ProviderView>, id: Seq<char>, offset: int)
    requires
        providers.len() <= i32::MAX,
        find_id(in_priority_order(providers), id) is Some,
    ensures
        ({
            let sorted = in_priority_order(providers);
            let at = find_id(sorted, id)->0;
            let to = if at + offset < 0 {
                0
            } else if at + offset >= providers.len() {
                providers.len() - 1
            } else {
                at + offset
            };
            let after = moved(providers, id, offset);
            &&& sorted[at].id == id && after.len() == providers.len()
            &&& after[to] == (ProviderView { priority: (to + 1) as u32, ..sorted[at] })
            &&& forall|i: int|
                0 <= i < after.len() && i != to ==> (#[trigger] after[i]) == (ProviderView {
                    priority: (i + 1) as u32,
                    ..sorted[if at <= i < to {
                        i + 1
                    } else if to < i <= at {
                        i - 1
                    } else {
                        i
                    }]
                })
        }),
{
    let sorted = in_priority_order(providers);
    order::lemma_sort_keeps_items(providers, crate::routing::by_priority());
    lemma_find_id(sorted, id);
}

/// Codex is given a healthy provider where there is one, else one of which nothing is known yet, and one that
/// failed its last probe only where there is no other; among equals the lowest number is taken. It has to be
/// switched on, with a key and with a model that is known.
pub proof fn law_codex_gets_a_healthy_provider(providers: Seq<ProviderView>, i: int)
    requires
        0 <= i < providers.len(),
        providers[i].enabled && providers[i].api_key is Some,
        providers[i].effective_model().len() > 0 && providers[i].effective_model() != "自动获取中"@,
    ensures
        target_of(providers) matches Some(best) && {
            let other = providers[i];
            &&& best.enabled && best.api_key is Some
            &&& best.effective_model().len() > 0 && best.effective_model() != "自动获取中"@
            &&& other.status == ProviderStatus::Healthy ==> best.status == ProviderStatus::Healthy
            &&& other.status != ProviderStatus::Unhealthy ==> best.status != ProviderStatus::Unhealthy
            &&& (other.status == ProviderStatus::Healthy <==> best.status == ProviderStatus::Healthy) && (other.status
                == ProviderStatus::Unhealthy <==> best.status == ProviderStatus::Unhealthy) ==> best.priority
                <= other.priority
        },
{
    law_codex_gets_the_best_provider(providers);
    assert(providers[i].is_routable() && has_model(providers[i]));
}

/// An import goes as far as the first input that cannot be imported, and says what is wrong with that one.
pub proof fn law_imports_stop_at_the_first_problem(inputs: Seq<ProviderInput>, k: int)
    requires
        0 <= k <= inputs.len(),
        forall|i: int| 0 <= i < k ==> import_problem(#[trigger] inputs[i]) is None,
        k < inputs.len() ==> import_problem(inputs[k]) is Some,
    ensures
        importable(inputs) == k,
        k < inputs.len() ==> import_refusal(inputs) == import_problem(inputs[k]),
        k == inputs.len() && k > 0 ==> import_refusal(inputs) is None,
        inputs.len() == 0 ==> import_refusal(inputs) == Some("没有可导入的 Provider"@),
{
    lemma_importable(inputs);
}

/// Of providers of one number that fare alike, Codex gets the one that is configured first.
pub proof fn law_codex_gets_the_first_of_equals(providers: Seq<ProviderView>)
    requires
        target_of(providers) is Some,
    ensures
        exists|k: int|
            #![trigger providers[k]]
            0 <= k < providers.len() && Some(providers[k]) == target_of(providers) && forall|i: int|
                0 <= i < k ==> !({
                    let other = #[trigger] providers[i];
                    &&& other.enabled && other.api_key is Some
                    &&& other.effective_model().len() > 0 && other.effective_model() != "自动获取中"@
                    &&& other.priority == providers[k].priority
                    &&& other.status == providers[k].status
                }),
{
    law_codex_gets_the_best_provider(providers);
    let best = target_of(providers)->0;
    let k = choose|k: int|
        #![trigger providers[k]]
        0 <= k < providers.len() && providers[k] == best && forall|i: int|
            0 <= i < k && (#[trigger] providers[i]).is_routable() && has_model(providers[i])
                ==> !by_health_then_priority()(providers[i], best);
    assert forall|i: int| 0 <= i < k implies !({
        let other = #[trigger] providers[i];
        &&& other.enabled && other.api_key is Some
        &&& other.effective_model().len() > 0 && other.effective_model() != "自动获取中"@
        &&& other.priority == providers[k].priority
        &&& other.status == providers[k].status
    }) by {
        let other = providers[i];
        if other.is_routable() && has_model(other) {
            assert(!by_health_then_priority()(other, best));
        }
    }
}

} // verus!

//! The configuration of Codex: how it is pointed at the gateway, and how that is recognised.

use crate::error::RelayError;
use crate::models::{AppSettings, CodexRestartResult, CodexStatus};
use crate::text;
use crate::toml::{TomlDocument, TomlEntry, TomlLeaf};
use vstd::prelude::*;

verus! {

// ------------------------------------------------------------------------------ addresses
/// The address at which Codex finds the gateway.
pub open spec fn gateway_url(port: u16) -> Seq<char> {
    "http://127.0.0.1:"@ + text::decimal(port as nat) + "/v1"@
}

/// The port in an address: the number between the last colon and the next slash.
pub open spec fn port_in(url: Seq<char>) -> Option<u16> {
    text::port_value(text::split_by(text::after_last(url, text::only(':')), text::only('/'))[0])
}

fn read_port(url: &str) -> (port: Option<u16>)
    ensures
        port == port_in(url@),
{
    let parts = text::split(url, ':');
    let tail = &parts[parts.len() - 1];
    proof {
        text::lemma_after_last_is_last_piece(url@, text::only(':'));
        assert(parts.deep_view()[parts@.len() - 1] == tail@);
    }
    let pieces = text::split(tail.as_str(), '/');
    assert(pieces.deep_view()[0] == pieces@[0]@);
    text::parse_port(pieces[0].as_str())
}

// --------------------------------------------------------------------------------- status
/// Codex is pointed at the gateway.
pub open spec fn is_configured(tree: Map<Seq<Seq<char>>, TomlEntry>) -> bool {
    &&& crate::toml::text_of_entry(crate::toml::entry_at(tree, seq!["model_provider"@])) == Some("relaydeck"@)
    &&& tree.contains_key(seq!["model_providers"@, "relaydeck"@])
}

/// The port at which Codex looks for the gateway.
pub open spec fn port_of(tree: Map<Seq<Seq<char>>, TomlEntry>) -> Option<u16> {
    match crate::toml::text_of_entry(
        crate::toml::entry_at(tree, seq!["model_providers"@, "relaydeck"@, "base_url"@]),
    ) {
        Some(url) => port_in(url),
        None => None,
    }
}

/// What a configuration says of Codex.
pub open spec fn reports(status: CodexStatus, tree: Map<Seq<Seq<char>>, TomlEntry>, gateway_port: u16) -> bool {
    &&& status.configured == is_configured(tree)
    &&& status.active_provider.deep_view() == crate::toml::text_of_entry(
        crate::toml::entry_at(tree, seq!["model_provider"@]),
    )
    &&& status.active_model.deep_view() == crate::toml::text_of_entry(crate::toml::entry_at(tree, seq!["model"@]))
    &&& status.configured_port == port_of(tree)
    &&& status.stale == (is_configured(tree) && (port_of(tree) matches Some(port) && port != gateway_port))
}

/// Nothing is known of Codex but where its configuration would be.
pub open spec fn reports_nothing(status: CodexStatus) -> bool {
    &&& !status.configured
    &&& status.active_provider is None
    &&& status.active_model is None
    &&& status.configured_port is None
    &&& !status.stale
}

/// What a configuration says of Codex.
pub fn status_of(document: &TomlDocument, config_path: &str, gateway_port: u16) -> (status: CodexStatus)
    ensures
        status.config_path@ == config_path@,
        reports(status, document.tree(), gateway_port),
{
    let active_provider = document.text_one("model_provider");
    let active_model = document.text_one("model");
    let configured = text::is_exactly(&active_provider, "relaydeck") && document.has_two("model_providers", "relaydeck");
    let configured_port = match document.text_three("model_providers", "relaydeck", "base_url") {
        Some(url) => read_port(url.as_str()),
        None => None,
    };
    let stale = match configured_port {
        Some(port) => configured && port != gateway_port,
        None => false,
    };
    CodexStatus { configured, config_path: config_path.to_owned(), active_model, active_provider, configured_port, stale }
}

/// How Codex is configured: `content` is its configuration file, where there is one. One that cannot
/// be read as TOML says nothing.
pub fn status(content: Option<&str>, config_path: &str, gateway_port: u16) -> (status: CodexStatus)
    ensures
        status.config_path@ == config_path@,
        ({
            let tree = match content {
                Some(text) => crate::toml::toml_parsed(text@),
                None => None,
            };
            match tree {
                Some(tree) => reports(status, tree, gateway_port),
                None => reports_nothing(status),
            }
        }),
{
    match content {
        Some(text) => match TomlDocument::parse(text) {
            Ok(document) => {
                return status_of(&document, config_path, gateway_port);
            },
            Err(_) => {},
        },
        None => {},
    }
    let mut status = CodexStatus::default();
    status.config_path = config_path.to_owned();
    status
}

/// The provider that a configuration names, which is the one whose sessions Codex lists.
pub fn active_provider(content: Option<&str>) -> (provider: Option<String>)
    ensures
        provider.deep_view() == match content {
            Some(text) => match crate::toml::toml_parsed(text@) {
                Some(tree) => crate::toml::text_of_entry(crate::toml::entry_at(tree, seq!["model_provider"@])),
                None => None,
            },
            None => None,
        },
{
    match content {
        Some(text) => match TomlDocument::parse(text) {
            Ok(document) => document.text_one("model_provider"),
            Err(_) => None,
        },
        None => None,
    }
}

// ------------------------------------------------------------------------------- applying
/// How often Codex repeats a request that failed.
pub const REQUEST_MAX_RETRIES: i64 = 4;

/// How often Codex resumes a stream that broke off.
pub const STREAM_MAX_RETRIES: i64 = 5;

/// For how long Codex waits for the next part of a stream, in milliseconds: exactly as long as the
/// gateway does.
pub open spec fn idle_milliseconds(settings: AppSettings) -> int {
    crate::settings::within(settings.stream_idle_timeout_seconds, 10, 3600) * 1000
}

/// The document can hold the settings for the gateway: what stands where they go is a table.
pub open spec fn can_hold_block(tree: Map<Seq<Seq<char>>, TomlEntry>) -> bool {
    let providers = seq!["model_providers"@];
    let block = seq!["model_providers"@, "relaydeck"@];
    &&& tree.contains_key(providers) ==> crate::toml::is_table_at(tree, providers)
    &&& tree.contains_key(block) ==> crate::toml::is_table_at(tree, block)
}

/// The document with an entry in the block of the gateway.
pub open spec fn in_block(
    tree: Map<Seq<Seq<char>>, TomlEntry>,
    key: Seq<char>,
    entry: TomlEntry,
) -> Map<Seq<Seq<char>>, TomlEntry> {
    crate::toml::put_three(tree, "model_providers"@, "relaydeck"@, key, entry)
}

/// The kind of table that the settings of the gateway go into, where there is none yet: one in braces
/// if the providers are listed in braces, else one under a header.
pub open spec fn block_kind(tree: Map<Seq<Seq<char>>, TomlEntry>) -> TomlEntry {
    if crate::toml::entry_at(tree, seq!["model_providers"@]) == Some(TomlEntry::Inline) {
        TomlEntry::Inline
    } else {
        TomlEntry::Table
    }
}

/// The document with the model and the provider for Codex, and a table for the settings of the
/// gateway.
pub open spec fn with_block(tree: Map<Seq<Seq<char>>, TomlEntry>, model: Seq<char>) -> Map<Seq<Seq<char>>, TomlEntry> {
    let named = crate::toml::put_one(
        crate::toml::put_one(tree, "model"@, TomlEntry::Text(model)),
        "model_provider"@,
        TomlEntry::Text("relaydeck"@),
    );
    let listed = if named.contains_key(seq!["model_providers"@]) {
        named
    } else {
        crate::toml::put_one(named, "model_providers"@, TomlEntry::Table)
    };
    if listed.contains_key(seq!["model_providers"@, "relaydeck"@]) {
        listed
    } else {
        crate::toml::put_two(listed, "model_providers"@, "relaydeck"@, block_kind(listed))
    }
}

/// The document that points Codex at the gateway.
pub open spec fn configured_tree(
    tree: Map<Seq<Seq<char>>, TomlEntry>,
    settings: AppSettings,
    model: Seq<char>,
) -> Map<Seq<Seq<char>>, TomlEntry> {
    let t0 = with_block(tree, model);
    let t1 = in_block(t0, "name"@, TomlEntry::Text("RelayDeck"@));
    let t2 = in_block(t1, "base_url"@, TomlEntry::Text(gateway_url(settings.gateway_port)));
    let t3 = in_block(t2, "env_key"@, TomlEntry::Text("RELAYDECK_API_KEY"@));
    let t4 = in_block(t3, "wire_api"@, TomlEntry::Text("responses"@));
    let t5 = in_block(t4, "requires_openai_auth"@, TomlEntry::Flag(false));
    let t6 = in_block(t5, "supports_websockets"@, TomlEntry::Flag(false));
    let t7 = in_block(t6, "request_max_retries"@, TomlEntry::Integer(REQUEST_MAX_RETRIES as int));
    let t8 = in_block(t7, "stream_max_retries"@, TomlEntry::Integer(STREAM_MAX_RETRIES as int));
    in_block(t8, "stream_idle_timeout_ms"@, TomlEntry::Integer(idle_milliseconds(settings)))
}

proof fn lemma_put_one(tree: Map<Seq<Seq<char>>, TomlEntry>, key: Seq<char>, entry: TomlEntry, path: Seq<Seq<char>>)
    ensures
        crate::toml::entry_at(crate::toml::put_one(tree, key, entry), path) == if path == seq![key] {
            Some(entry)
        } else if path.len() > 0 && path[0] == key {
            None
        } else {
            crate::toml::entry_at(tree, path)
        },
{
    if path.len() > 0 && path[0] == key {
        if path.len() == 1 {
            assert(path =~= seq![key]);
            assert(path.skip(1) =~= Seq::<Seq<char>>::empty());
        } else {
            assert(path.skip(1).len() > 0);
        }
    }
}

proof fn lemma_put_two(
    tree: Map<Seq<Seq<char>>, TomlEntry>,
    a: Seq<char>,
    b: Seq<char>,
    entry: TomlEntry,
    path: Seq<Seq<char>>,
)
    ensures
        crate::toml::entry_at(crate::toml::put_two(tree, a, b, entry), path) == if path == seq![a, b] {
            Some(entry)
        } else if path.len() > 1 && path[0] == a && path[1] == b {
            None
        } else {
            crate::toml::entry_at(tree, path)
        },
{
    if path.len() > 0 && path[0] == a {
        let rest = path.skip(1);
        assert(seq![a] + rest =~= path);
        if rest.len() > 0 && rest[0] == b {
            if rest.len() == 1 {
                assert(path =~= seq![a, b]);
                assert(rest.skip(1) =~= Seq::<Seq<char>>::empty());
            } else {
                assert(rest.skip(1).len() > 0);
            }
        }
    }
}

proof fn lemma_in_block(tree: Map<Seq<Seq<char>>, TomlEntry>, key: Seq<char>, entry: TomlEntry, path: Seq<Seq<char>>)
    ensures
        crate::toml::entry_at(in_block(tree, key, entry), path) == if path == seq!["model_providers"@, "relaydeck"@, key] {
            Some(entry)
        } else if path.len() > 2 && path[0] == "model_providers"@ && path[1] == "relaydeck"@ && path[2] == key {
            None
        } else {
            crate::toml::entry_at(tree, path)
        },
{
    let a = "model_providers"@;
    let b = "relaydeck"@;
    if path.len() > 0 && path[0] == a {
        let rest = path.skip(1);
        assert(seq![a] + rest =~= path);
        if rest.len() > 0 && rest[0] == b {
            let last = rest.skip(1);
            assert(seq![b] + last =~= rest);
            assert(seq![a] + (seq![b] + last) =~= path);
            if last.len() > 0 && last[0] == key {
                if last.len() == 1 {
                    assert(path =~= seq![a, b, key]);
                    assert(last.skip(1) =~= Seq::<Seq<char>>::empty());
                } else {
                    assert(last.skip(1).len() > 0);
                }
            }
        }
    }
}

proof fn lemma_block_stays(tree: Map<Seq<Seq<char>>, TomlEntry>, key: Seq<char>, entry: TomlEntry)
    ensures
        crate::toml::is_table_at(in_block(tree, key, entry), seq!["model_providers"@]) == crate::toml::is_table_at(
            tree,
            seq!["model_providers"@],
        ),
        crate::toml::is_table_at(in_block(tree, key, entry), seq!["model_providers"@, "relaydeck"@])
            == crate::toml::is_table_at(tree, seq!["model_providers"@, "relaydeck"@]),
{
    lemma_in_block(tree, key, entry, seq!["model_providers"@]);
    lemma_in_block(tree, key, entry, seq!["model_providers"@, "relaydeck"@]);
}

fn set_in_block(document: &mut TomlDocument, key: &str, value: TomlLeaf)
    requires
        crate::toml::is_table_at(old(document).tree(), seq!["model_providers"@]),
        crate::toml::is_table_at(old(document).tree(), seq!["model_providers"@, "relaydeck"@]),
        value.is_valid(),
        value !is Table,
    ensures
        final(document).tree() == in_block(old(document).tree(), key@, value.entry()),
        crate::toml::is_table_at(final(document).tree(), seq!["model_providers"@]),
        crate::toml::is_table_at(final(document).tree(), seq!["model_providers"@, "relaydeck"@]),
{
    proof {
        lemma_block_stays(document.tree(), key@, value.entry());
    }
    document.set_three("model_providers", "relaydeck", key, value);
}

proof fn lemma_names_differ()
    ensures
        "model"@ != "model_provider"@,
        "model"@ != "model_providers"@,
        "model_provider"@ != "model_providers"@,
{
    reveal_strlit("model");
    reveal_strlit("model_provider");
    reveal_strlit("model_providers");
    assert("model"@.len() == 5);
    assert("model_provider"@.len() == 14);
    assert("model_providers"@.len() == 15);
}

proof fn lemma_with_block(tree: Map<Seq<Seq<char>>, TomlEntry>, model: Seq<char>)
    requires
        can_hold_block(tree),
    ensures
        crate::toml::is_table_at(with_block(tree, model), seq!["model_providers"@]),
        crate::toml::is_table_at(with_block(tree, model), seq!["model_providers"@, "relaydeck"@]),
{
    let a = "model_providers"@;
    let b = "relaydeck"@;
    lemma_names_differ();
    let t1 = crate::toml::put_one(tree, "model"@, TomlEntry::Text(model));
    let t2 = crate::toml::put_one(t1, "model_provider"@, TomlEntry::Text(b));
    lemma_put_one(tree, "model"@, TomlEntry::Text(model), seq![a]);
    lemma_put_one(tree, "model"@, TomlEntry::Text(model), seq![a, b]);
    lemma_put_one(t1, "model_provider"@, TomlEntry::Text(b), seq![a]);
    lemma_put_one(t1, "model_provider"@, TomlEntry::Text(b), seq![a, b]);
    lemma_put_one(t2, a, TomlEntry::Table, seq![a]);
    lemma_put_one(t2, a, TomlEntry::Table, seq![a, b]);
    assert(seq![a, b][0] == a && seq![a, b].len() == 2);
    assert(seq![a][0] == a && seq![a].len() == 1);
    let t3 = if t2.contains_key(seq![a]) {
        t2
    } else {
        crate::toml::put_one(t2, a, TomlEntry::Table)
    };
    lemma_put_two(t3, a, b, block_kind(t3), seq![a]);
    lemma_put_two(t3, a, b, block_kind(t3), seq![a, b]);
}

proof fn lemma_url_is_short(port: u16)
    ensures
        gateway_url(port).len() <= 25,
{
    reveal_strlit("http://127.0.0.1:");
    reveal_strlit("/v1");
    reveal_with_fuel(text::decimal, 6);
    assert(text::decimal(port as nat).len() <= 5);
}

/// The strings that are written for the gateway can be written.
proof fn lemma_block_is_valid(settings: AppSettings)
    ensures
        !crate::toml::has_long_quote_run(gateway_url(settings.gateway_port)),
        !crate::toml::has_long_quote_run("relaydeck"@),
        !crate::toml::has_long_quote_run("RelayDeck"@),
        !crate::toml::has_long_quote_run("RELAYDECK_API_KEY"@),
        !crate::toml::has_long_quote_run("responses"@),
{
    reveal_strlit("relaydeck");
    reveal_strlit("RelayDeck");
    reveal_strlit("RELAYDECK_API_KEY");
    reveal_strlit("responses");
    lemma_url_is_short(settings.gateway_port);
    crate::toml::lemma_short_strings_are_fine(gateway_url(settings.gateway_port));
    crate::toml::lemma_short_strings_are_fine("relaydeck"@);
    crate::toml::lemma_short_strings_are_fine("RelayDeck"@);
    crate::toml::lemma_short_strings_are_fine("RELAYDECK_API_KEY"@);
    crate::toml::lemma_short_strings_are_fine("responses"@);
}

/// Points Codex at the gateway: writes the model, the provider and the settings of the gateway, and
/// leaves everything else as it is.
pub fn configure_document(document: &mut TomlDocument, settings: &AppSettings, model: &str)
    requires
        can_hold_block(old(document).tree()),
        !crate::toml::has_long_quote_run(model@),
    ensures
        final(document).tree() == configured_tree(old(document).tree(), *settings, model@),
{
    proof {
        lemma_with_block(document.tree(), model@);
        lemma_names_differ();
        lemma_block_is_valid(*settings);
    }
    document.set_one("model", TomlLeaf::Text(model.to_owned()));
    document.set_one("model_provider", TomlLeaf::Text("relaydeck".to_owned()));
    if !document.has_one("model_providers") {
        document.set_one("model_providers", TomlLeaf::Table);
    }
    if !document.has_two("model_providers", "relaydeck") {
        proof {
            let a = "model_providers"@;
            let before = old(document).tree();
            let t1 = crate::toml::put_one(before, "model"@, TomlEntry::Text(model@));
            let t2 = crate::toml::put_one(t1, "model_provider"@, TomlEntry::Text("relaydeck"@));
            lemma_put_one(before, "model"@, TomlEntry::Text(model@), seq![a]);
            lemma_put_one(t1, "model_provider"@, TomlEntry::Text("relaydeck"@), seq![a]);
            lemma_put_one(t2, a, TomlEntry::Table, seq![a]);
            assert(seq![a][0] == a);
        }
        let kind = if document.is_inline_one("model_providers") {
            TomlLeaf::Inline
        } else {
            TomlLeaf::Table
        };
        document.set_two("model_providers", "relaydeck", kind);
    }
    assert(document.tree() == with_block(old(document).tree(), model@));
    let port = text::decimal_text(settings.gateway_port as u64);
    let url = text::cat3("http://127.0.0.1:", port.as_str(), "/v1");
    let idle: u64 = if settings.stream_idle_timeout_seconds < 10 {
        10
    } else if settings.stream_idle_timeout_seconds > 3600 {
        3600
    } else {
        settings.stream_idle_timeout_seconds
    };
    let idle_ms: i64 = (idle * 1000) as i64;
    set_in_block(document, "name", TomlLeaf::Text("RelayDeck".to_owned()));
    set_in_block(document, "base_url", TomlLeaf::Text(url));
    set_in_block(document, "env_key", TomlLeaf::Text("RELAYDECK_API_KEY".to_owned()));
    set_in_block(document, "wire_api", TomlLeaf::Text("responses".to_owned()));
    set_in_block(document, "requires_openai_auth", TomlLeaf::Flag(false));
    set_in_block(document, "supports_websockets", TomlLeaf::Flag(false));
    set_in_block(document, "request_max_retries", TomlLeaf::Integer(REQUEST_MAX_RETRIES));
    set_in_block(document, "stream_max_retries", TomlLeaf::Integer(STREAM_MAX_RETRIES));
    set_in_block(document, "stream_idle_timeout_ms", TomlLeaf::Integer(idle_ms));
}

/// The configuration that a file holds: an empty one where the file is blank.
pub open spec fn tree_in(content: Seq<char>) -> Option<Map<Seq<Seq<char>>, TomlEntry>> {
    if text::is_blank(content) {
        Some(crate::toml::leaf(TomlEntry::Table))
    } else {
        crate::toml::toml_parsed(content)
    }
}

/// The text of the configuration that points Codex at the gateway, made from the one there is; whoever
/// reads it finds all of it. `None` where something else stands in the place of the tables that it
/// needs. That the comments and the layout of the rest stay as they were is up to `toml_edit`.
pub fn apply(content: &str, settings: &AppSettings, model: &str) -> (r: Result<Option<String>, RelayError>)
    requires
        !crate::toml::has_long_quote_run(model@),
    ensures
        r is Ok <==> tree_in(content@) is Some,
        r matches Ok(written) ==> (written is Some <==> can_hold_block(tree_in(content@)->0)),
        r matches Ok(Some(text)) ==> crate::toml::toml_parsed(text@) == Some(
            configured_tree(tree_in(content@)->0, *settings, model@),
        ),
        r matches Err(error) ==> error.says("Codex config.toml 无法解析: "@ + crate::toml::toml_error(content@)),
{
    let mut document = if text::blank(content) {
        TomlDocument::new()
    } else {
        match TomlDocument::parse(content) {
            Ok(document) => document,
            Err(error) => {
                let message = text::cat("Codex config.toml 无法解析: ", error.as_str());
                return Err(RelayError::invalid(message.as_str()));
            },
        }
    };
    if document.has_one("model_providers") && !document.is_table_one("model_providers") {
        return Ok(None);
    }
    if document.has_two("model_providers", "relaydeck") && !document.is_table_two("model_providers", "relaydeck") {
        return Ok(None);
    }
    proof {
        lemma_configured_is_writable(document.tree(), *settings, model@);
    }
    configure_document(&mut document, settings, model);
    Ok(Some(document.to_text()))
}

// ------------------------------------------------------------------------ the environment
/// The line that holds the key for local access.
pub open spec fn key_line(key: Seq<char>) -> Seq<char> {
    "RELAYDECK_API_KEY="@ + key
}

/// A line that sets the key for local access, exported or not, however far it is indented.
pub open spec fn sets_key(line: Seq<char>) -> bool {
    let start = text::strip_start(line, text::any_white());
    "RELAYDECK_API_KEY="@.is_prefix_of(start) || "export RELAYDECK_API_KEY="@.is_prefix_of(start)
}

/// The lines with the key in every line that sets it, and with such a line where there is none.
pub open spec fn lines_with_key(lines: Seq<Seq<char>>, key: Seq<char>) -> Seq<Seq<char>> {
    let updated = lines.map_values(
        |line: Seq<char>|
            if sets_key(line) {
                key_line(key)
            } else {
                line
            },
    );
    if exists|i: int| 0 <= i < lines.len() && sets_key(#[trigger] lines[i]) {
        updated
    } else {
        updated.push(key_line(key))
    }
}

/// The text of an environment file with the key for local access.
pub fn env_with_key(content: &str, key: &str) -> (r: String)
    ensures
        r@ == text::joined(lines_with_key(text::lines_of(content@), key@), "\n"@) + "\n"@,
{
    let mut lines = text::lines(content);
    let ghost all = lines.deep_view();
    let ghost change = |line: Seq<char>|
        if sets_key(line) {
            key_line(key@)
        } else {
            line
        };
    let mut found = false;
    let mut i: usize = 0;
    while i < lines.len()
        invariant
            all == text::lines_of(content@),
            change == (|line: Seq<char>|
                if sets_key(line) {
                    key_line(key@)
                } else {
                    line
                }),
            lines@.len() == all.len(),
            i <= lines@.len(),
            forall|k: int| 0 <= k < i ==> #[trigger] lines@[k]@ == change(all[k]),
            forall|k: int| i <= k < lines@.len() ==> #[trigger] lines@[k]@ == all[k],
            found <==> exists|k: int| 0 <= k < i && sets_key(#[trigger] all[k]),
        decreases lines@.len() - i,
    {
        let ghost before = lines@;
        assert(before[i as int]@ == all[i as int]);
        let trimmed = text::trim_start(lines[i].as_str());
        if text::starts_with(trimmed, "RELAYDECK_API_KEY=") || text::starts_with(trimmed, "export RELAYDECK_API_KEY=") {
            lines.set(i, text::cat("RELAYDECK_API_KEY=", key));
            found = true;
            assert(sets_key(all[i as int]));
        }
        assert(forall|k: int| 0 <= k < lines@.len() && k != i ==> lines@[k] == before[k]);
        i = i + 1;
    }
    proof {
        assert(lines.deep_view() =~= all.map_values(change));
    }
    if !found {
        let ghost updated = lines.deep_view();
        lines.push(text::cat("RELAYDECK_API_KEY=", key));
        assert(lines.deep_view() =~= updated.push(key_line(key@)));
    }
    text::cat(text::join(&lines, "\n").as_str(), "\n")
}

// ----------------------------------------------------------------------------- restarting
/// A desktop application that can be started again.
#[derive(Debug)]
pub struct RestartTarget {
    pub kind: String,
    pub launch: String,
    pub app_name: String,
    pub version: Option<String>,
    pub installed_at: Option<String>,
}

/// `s` with every single quote doubled, as PowerShell wants it between single quotes.
pub open spec fn quotes_doubled(s: Seq<char>) -> Seq<char>
    decreases s.len(),
{
    if s.len() == 0 {
        s
    } else if s.last() == '\'' {
        quotes_doubled(s.drop_last()).push('\'').push('\'')
    } else {
        quotes_doubled(s.drop_last()).push(s.last())
    }
}

fn double_quotes(s: &str) -> (r: String)
    ensures
        r@ == quotes_doubled(s@),
{
    let chars = text::chars_of(s);
    let mut r = String::new();
    let mut i: usize = 0;
    proof {
        assert(r@ =~= quotes_doubled(s@.take(0)));
    }
    while i < chars.len()
        invariant
            chars@ == s@,
            i <= chars@.len(),
            r@ == quotes_doubled(s@.take(i as int)),
        decreases chars@.len() - i,
    {
        proof {
            assert(s@.take(i + 1).drop_last() =~= s@.take(i as int));
        }
        r.push(chars[i]);
        if chars[i] == '\'' {
            r.push('\'');
        }
        i = i + 1;
    }
    assert(s@.take(i as int) =~= s@);
    r
}

/// The PowerShell command that starts an application: a program by its file, anything else through
/// the shell folder of applications.
pub fn launch_script(target: &RestartTarget) -> (script: String)
    ensures
        script@ == if target.kind@ == "exe"@ {
            "Start-Process -FilePath '"@ + quotes_doubled(target.launch@) + "'"@
        } else {
            "Start-Process explorer.exe -ArgumentList 'shell:AppsFolder\\"@ + quotes_doubled(target.launch@) + "'"@
        },
{
    let launch = double_quotes(target.launch.as_str());
    if text::same(target.kind.as_str(), "exe") {
        text::cat3("Start-Process -FilePath '", launch.as_str(), "'")
    } else {
        text::cat3("Start-Process explorer.exe -ArgumentList 'shell:AppsFolder\\", launch.as_str(), "'")
    }
}

/// What the search for an application printed, without the whitespace around it; it prints nothing
/// where it finds none.
pub fn discovered(output: &str) -> (r: Result<String, RelayError>)
    ensures
        r is Ok <==> !text::is_blank(output@),
        r matches Ok(payload) ==> payload@ == text::trimmed(output@),
        r matches Err(error) ==> error.says("没有找到已安装的 ChatGPT/Codex 桌面应用"@),
{
    let payload = text::trim(output);
    if payload.is_empty() {
        Err(RelayError::invalid("没有找到已安装的 ChatGPT/Codex 桌面应用"))
    } else {
        Ok(payload.to_owned())
    }
}

/// The refusal of what the search for an application printed, with the words of the reader.
pub fn unreadable_target(reason: &str) -> (error: RelayError)
    ensures
        error.says("无法解析 ChatGPT/Codex 安装信息: "@ + reason@),
{
    let message = text::cat("无法解析 ChatGPT/Codex 安装信息: ", reason);
    RelayError::invalid(message.as_str())
}

/// What is reported of an application that was started, or could not be.
pub fn launched(success: bool, target: RestartTarget) -> (r: Result<CodexRestartResult, RelayError>)
    ensures
        r is Ok <==> success,
        r matches Ok(result) ==> result.app_name == target.app_name && result.version == target.version
            && result.installed_at == target.installed_at,
        r matches Err(error) ==> error.says("无法启动最新的 ChatGPT/Codex 桌面应用"@),
{
    if success {
        Ok(
            CodexRestartResult {
                app_name: target.app_name,
                version: target.version,
                installed_at: target.installed_at,
            },
        )
    } else {
        Err(RelayError::invalid("无法启动最新的 ChatGPT/Codex 桌面应用"))
    }
}

/// Restarting Codex where that is not supported: only Windows has what it takes.
pub fn restart() -> (r: Result<CodexRestartResult, RelayError>)
    ensures
        r matches Err(error) && error.says("Codex 自动重启目前仅支持 Windows"@),
{
    Err(RelayError::invalid("Codex 自动重启目前仅支持 Windows"))
}

// ------------------------------------------------------------------------------------ laws
proof fn lemma_key_line_sets_key(key: Seq<char>)
    ensures
        sets_key(key_line(key)),
{
    reveal_strlit("RELAYDECK_API_KEY=");
    let line = key_line(key);
    assert(line[0] == 'R');
    assert(text::strip_start(line, text::any_white()) == line);
    assert("RELAYDECK_API_KEY="@ =~= line.subrange(0, "RELAYDECK_API_KEY="@.len() as int));
}

/// Writing the key changes no line that does not set it, leaves exactly one value for it, and once it
/// is there, writing it again changes nothing.
pub proof fn law_environment_keeps_other_lines(lines: Seq<Seq<char>>, key: Seq<char>)
    ensures
        ({
            let after = lines_with_key(lines, key);
            &&& forall|i: int| 0 <= i < lines.len() && !sets_key(#[trigger] lines[i]) ==> after[i] == lines[i]
            &&& forall|i: int| 0 <= i < after.len() && sets_key(#[trigger] after[i]) ==> after[i] == key_line(key)
            &&& after.contains(key_line(key))
            &&& lines.len() <= after.len() <= lines.len() + 1
            &&& lines_with_key(after, key) == after
        }),
{
    let after = lines_with_key(lines, key);
    let found = exists|i: int| 0 <= i < lines.len() && sets_key(#[trigger] lines[i]);
    lemma_key_line_sets_key(key);
    let at = if found {
        choose|i: int| 0 <= i < lines.len() && sets_key(#[trigger] lines[i])
    } else {
        lines.len() as int
    };
    assert(after[at] == key_line(key));
    assert(sets_key(after[at]));
    assert(lines_with_key(after, key) =~= after);
}

spec fn only_adds(
    before: Map<Seq<Seq<char>>, TomlEntry>,
    after: Map<Seq<Seq<char>>, TomlEntry>,
    path: Seq<Seq<char>>,
) -> bool {
    let was = crate::toml::entry_at(before, path);
    let is = crate::toml::entry_at(after, path);
    let block = seq!["model_providers"@, "relaydeck"@];
    &&& is == Some(TomlEntry::Inline) ==> was == Some(TomlEntry::Inline) || path == block
    &&& is == Some(TomlEntry::Table) ==> was == Some(TomlEntry::Table) || path == seq!["model_providers"@] || path == block
}

proof fn lemma_only_adds(
    tree: Map<Seq<Seq<char>>, TomlEntry>,
    settings: AppSettings,
    model: Seq<char>,
    path: Seq<Seq<char>>,
)
    ensures
        only_adds(tree, configured_tree(tree, settings, model), path),
{
    let a = "model_providers"@;
    let b = "relaydeck"@;
    let t1 = crate::toml::put_one(tree, "model"@, TomlEntry::Text(model));
    let t2 = crate::toml::put_one(t1, "model_provider"@, TomlEntry::Text(b));
    let t3 = if t2.contains_key(seq![a]) {
        t2
    } else {
        crate::toml::put_one(t2, a, TomlEntry::Table)
    };
    lemma_put_one(tree, "model"@, TomlEntry::Text(model), path);
    lemma_put_one(t1, "model_provider"@, TomlEntry::Text(b), path);
    lemma_put_one(t2, a, TomlEntry::Table, path);
    lemma_put_two(t3, a, b, block_kind(t3), path);
    lemma_configured_tree(tree, settings, model);
    lemma_entries_only_add(with_block(tree, model), settings, 9, path);
}

proof fn lemma_entries_only_add(
    tree: Map<Seq<Seq<char>>, TomlEntry>,
    settings: AppSettings,
    n: nat,
    path: Seq<Seq<char>>,
)
    requires
        n <= 9,
    ensures
        only_adds(tree, with_entries(tree, settings, n), path),
    decreases n,
{
    if n > 0 {
        lemma_entries_only_add(tree, settings, (n - 1) as nat, path);
        lemma_in_block(
            with_entries(tree, settings, (n - 1) as nat),
            block_keys()[n - 1],
            block_entries(settings)[n - 1],
            path,
        );
    }
}

proof fn lemma_block_kind(tree: Map<Seq<Seq<char>>, TomlEntry>, settings: AppSettings, model: Seq<char>)
    requires
        crate::toml::is_rooted(tree),
    ensures
        crate::toml::entry_at(configured_tree(tree, settings, model), seq!["model_providers"@, "relaydeck"@])
            == if tree.contains_key(seq!["model_providers"@, "relaydeck"@]) {
            Some(tree[seq!["model_providers"@, "relaydeck"@]])
        } else {
            Some(block_kind(tree))
        },
{
    let a = "model_providers"@;
    let b = "relaydeck"@;
    let path = seq![a, b];
    lemma_names_differ();
    let t1 = crate::toml::put_one(tree, "model"@, TomlEntry::Text(model));
    let t2 = crate::toml::put_one(t1, "model_provider"@, TomlEntry::Text(b));
    let t3 = if t2.contains_key(seq![a]) {
        t2
    } else {
        crate::toml::put_one(t2, a, TomlEntry::Table)
    };
    assert(path.drop_last() =~= seq![a]);
    assert(path[0] == a && path.len() == 2 && seq![a][0] == a);
    lemma_put_one(tree, "model"@, TomlEntry::Text(model), path);
    lemma_put_one(t1, "model_provider"@, TomlEntry::Text(b), path);
    lemma_put_one(t2, a, TomlEntry::Table, path);
    lemma_put_one(tree, "model"@, TomlEntry::Text(model), seq![a]);
    lemma_put_one(t1, "model_provider"@, TomlEntry::Text(b), seq![a]);
    lemma_put_one(t2, a, TomlEntry::Table, seq![a]);
    lemma_put_two(t3, a, b, block_kind(t3), path);
    lemma_configured_tree(tree, settings, model);
    lemma_with_entries(with_block(tree, model), settings, 9, path);
}

/// The configuration can be written as it is.
pub proof fn lemma_configured_is_writable(
    tree: Map<Seq<Seq<char>>, TomlEntry>,
    settings: AppSettings,
    model: Seq<char>,
)
    requires
        crate::toml::is_sound(tree),
    ensures
        crate::toml::is_writable(configured_tree(tree, settings, model)),
{
    let after = configured_tree(tree, settings, model);
    let block = seq!["model_providers"@, "relaydeck"@];
    lemma_block_kind(tree, settings, model);
    assert forall|path: Seq<Seq<char>>|
        #![trigger after[path]]
        after.contains_key(path) && path.len() > 0 && after[path] == TomlEntry::Table implies crate::toml::entry_at(
        after,
        path.drop_last(),
    ) != Some(TomlEntry::Inline) by {
        let parent = path.drop_last();
        lemma_only_adds(tree, settings, model, path);
        lemma_only_adds(tree, settings, model, parent);
        if path == seq!["model_providers"@] {
            assert(parent =~= Seq::<Seq<char>>::empty());
        } else if path == block {
            assert(parent =~= seq!["model_providers"@]);
            if tree.contains_key(path) {
                assert(tree[path] == TomlEntry::Table);
            }
        } else {
            assert(tree[path] == TomlEntry::Table);
            assert(crate::toml::is_table_at(tree, parent));
        }
    }
}

/// The port that is written into the configuration is the port that is read from it.
pub proof fn law_port_is_read_back(port: u16)
    ensures
        port_in(gateway_url(port)) == Some(port),
{
    reveal_strlit("http://127.0.0.1:");
    reveal_strlit("/v1");
    let digits = text::decimal(port as nat);
    let url = gateway_url(port);
    let tail = digits + "/v1"@;
    text::lemma_decimal_round_trip(port as nat);
    assert("http://127.0.0.1:"@.len() == 17);
    assert forall|i: int| 17 <= i < url.len() implies !text::only(':')(#[trigger] url[i]) by {
        if i < 17 + digits.len() {
            assert(url[i] == digits[i - 17]);
            assert(text::is_digit(digits[i - 17]));
        } else {
            assert(url[i] == "/v1"@[i - 17 - digits.len()]);
        }
    }
    assert(url[16] == ':');
    text::lemma_after_last(url, text::only(':'), 17);
    assert(url.skip(17) =~= tail);
    assert forall|i: int| 0 <= i < digits.len() implies !text::only('/')(#[trigger] tail[i]) by {
        assert(tail[i] == digits[i]);
        assert(text::is_digit(digits[i]));
    }
    assert(tail[digits.len() as int] == '/');
    text::lemma_first_piece(tail, text::only('/'), digits.len() as int);
    assert(tail.take(digits.len() as int) =~= digits);
}

/// The keys that are written for the gateway.
pub open spec fn block_keys() -> Seq<Seq<char>> {
    seq![
        "name"@,
        "base_url"@,
        "env_key"@,
        "wire_api"@,
        "requires_openai_auth"@,
        "supports_websockets"@,
        "request_max_retries"@,
        "stream_max_retries"@,
        "stream_idle_timeout_ms"@,
    ]
}

/// What is written under them.
pub open spec fn block_entries(settings: AppSettings) -> Seq<TomlEntry> {
    seq![
        TomlEntry::Text("RelayDeck"@),
        TomlEntry::Text(gateway_url(settings.gateway_port)),
        TomlEntry::Text("RELAYDECK_API_KEY"@),
        TomlEntry::Text("responses"@),
        TomlEntry::Flag(false),
        TomlEntry::Flag(false),
        TomlEntry::Integer(REQUEST_MAX_RETRIES as int),
        TomlEntry::Integer(STREAM_MAX_RETRIES as int),
        TomlEntry::Integer(idle_milliseconds(settings)),
    ]
}

/// The document with the first `n` of the entries of the gateway.
spec fn with_entries(tree: Map<Seq<Seq<char>>, TomlEntry>, settings: AppSettings, n: nat) -> Map<
    Seq<Seq<char>>,
    TomlEntry,
>
    decreases n,
{
    if n == 0 {
        tree
    } else {
        in_block(
            with_entries(tree, settings, (n - 1) as nat),
            block_keys()[n - 1],
            block_entries(settings)[n - 1],
        )
    }
}

proof fn lemma_keys_differ(i: int, j: int)
    requires
        0 <= i < j < 9,
    ensures
        block_keys()[i] != block_keys()[j],
{
    reveal_strlit("name");
    reveal_strlit("base_url");
    reveal_strlit("env_key");
    reveal_strlit("wire_api");
    reveal_strlit("requires_openai_auth");
    reveal_strlit("supports_websockets");
    reveal_strlit("request_max_retries");
    reveal_strlit("stream_max_retries");
    reveal_strlit("stream_idle_timeout_ms");
    assert("name"@.len() == 4);
    assert("base_url"@.len() == 8 && "base_url"@[0] == 'b');
    assert("env_key"@.len() == 7);
    assert("wire_api"@.len() == 8 && "wire_api"@[0] == 'w');
    assert("requires_openai_auth"@.len() == 20);
    assert("supports_websockets"@.len() == 19 && "supports_websockets"@[0] == 's');
    assert("request_max_retries"@.len() == 19 && "request_max_retries"@[0] == 'r');
    assert("stream_max_retries"@.len() == 18);
    assert("stream_idle_timeout_ms"@.len() == 22);
}

proof fn lemma_with_entries(
    tree: Map<Seq<Seq<char>>, TomlEntry>,
    settings: AppSettings,
    n: nat,
    path: Seq<Seq<char>>,
)
    requires
        n <= 9,
    ensures
        forall|i: int|
            0 <= i < n && path == seq!["model_providers"@, "relaydeck"@, #[trigger] block_keys()[i]]
                ==> crate::toml::entry_at(with_entries(tree, settings, n), path) == Some(block_entries(settings)[i]),
        !(path.len() > 2 && path[0] == "model_providers"@ && path[1] == "relaydeck"@ && block_keys().contains(path[2]))
            ==> crate::toml::entry_at(with_entries(tree, settings, n), path) == crate::toml::entry_at(tree, path),
    decreases n,
{
    if n > 0 {
        let before = with_entries(tree, settings, (n - 1) as nat);
        let key = block_keys()[n - 1];
        lemma_with_entries(tree, settings, (n - 1) as nat, path);
        lemma_in_block(before, key, block_entries(settings)[n - 1], path);
        assert(block_keys().contains(key));
        assert forall|i: int| 0 <= i < n && path == seq!["model_providers"@, "relaydeck"@, #[trigger] block_keys()[i]] implies crate::toml::entry_at(
            with_entries(tree, settings, n),
            path,
        ) == Some(block_entries(settings)[i]) by {
            assert(path[2] == block_keys()[i]);
            if i < n - 1 {
                lemma_keys_differ(i, n - 1);
            }
        }
    }
}

proof fn lemma_configured_tree(tree: Map<Seq<Seq<char>>, TomlEntry>, settings: AppSettings, model: Seq<char>)
    ensures
        configured_tree(tree, settings, model) == with_entries(with_block(tree, model), settings, 9),
{
    reveal_with_fuel(with_entries, 10);
}

proof fn lemma_with_block_at(tree: Map<Seq<Seq<char>>, TomlEntry>, model: Seq<char>, path: Seq<Seq<char>>)
    requires
        can_hold_block(tree),
    ensures
        path == seq!["model"@] ==> crate::toml::entry_at(with_block(tree, model), path) == Some(TomlEntry::Text(model)),
        path == seq!["model_provider"@] ==> crate::toml::entry_at(with_block(tree, model), path) == Some(
            TomlEntry::Text("relaydeck"@),
        ),
        path.len() > 0 && path[0] != "model"@ && path[0] != "model_provider"@ && !(path[0] == "model_providers"@
            && !tree.contains_key(seq!["model_providers"@])) && !(path.len() > 1 && path[0] == "model_providers"@ && path[1]
            == "relaydeck"@ && !tree.contains_key(seq!["model_providers"@, "relaydeck"@])) ==> crate::toml::entry_at(
            with_block(tree, model),
            path,
        ) == crate::toml::entry_at(tree, path),
        path.len() == 0 ==> crate::toml::entry_at(with_block(tree, model), path) == crate::toml::entry_at(tree, path),
{
    let a = "model_providers"@;
    let b = "relaydeck"@;
    lemma_names_differ();
    let t1 = crate::toml::put_one(tree, "model"@, TomlEntry::Text(model));
    let t2 = crate::toml::put_one(t1, "model_provider"@, TomlEntry::Text(b));
    let t3 = if t2.contains_key(seq![a]) {
        t2
    } else {
        crate::toml::put_one(t2, a, TomlEntry::Table)
    };
    lemma_put_one(tree, "model"@, TomlEntry::Text(model), path);
    lemma_put_one(t1, "model_provider"@, TomlEntry::Text(b), path);
    lemma_put_one(t2, a, TomlEntry::Table, path);
    lemma_put_two(t3, a, b, block_kind(t3), path);
    lemma_put_one(tree, "model"@, TomlEntry::Text(model), seq![a]);
    lemma_put_one(t1, "model_provider"@, TomlEntry::Text(b), seq![a]);
    lemma_put_one(tree, "model"@, TomlEntry::Text(model), seq![a, b]);
    lemma_put_one(t1, "model_provider"@, TomlEntry::Text(b), seq![a, b]);
    assert(seq![a][0] == a && seq![a, b][0] == a);
    assert(seq!["model"@][0] == "model"@);
    assert(seq!["model_provider"@][0] == "model_provider"@);
}

/// After the configuration was applied, Codex is pointed at the gateway, at its port and with the
/// model, and every setting of the gateway is in place.
pub proof fn law_applied_configuration_is_recognised(
    tree: Map<Seq<Seq<char>>, TomlEntry>,
    settings: AppSettings,
    model: Seq<char>,
)
    requires
        can_hold_block(tree),
    ensures
        ({
            let after = configured_tree(tree, settings, model);
            &&& is_configured(after)
            &&& port_of(after) == Some(settings.gateway_port)
            &&& crate::toml::entry_at(after, seq!["model"@]) == Some(TomlEntry::Text(model))
            &&& forall|i: int|
                0 <= i < 9 ==> crate::toml::entry_at(
                    after,
                    seq!["model_providers"@, "relaydeck"@, #[trigger] block_keys()[i]],
                ) == Some(block_entries(settings)[i])
        }),
{
    let block = with_block(tree, model);
    let after = configured_tree(tree, settings, model);
    lemma_configured_tree(tree, settings, model);
    lemma_with_block(tree, model);
    lemma_with_block_at(tree, model, seq!["model"@]);
    lemma_with_block_at(tree, model, seq!["model_provider"@]);
    lemma_with_entries(block, settings, 9, seq!["model"@]);
    lemma_with_entries(block, settings, 9, seq!["model_provider"@]);
    lemma_with_entries(block, settings, 9, seq!["model_providers"@, "relaydeck"@]);
    assert forall|i: int| 0 <= i < 9 implies crate::toml::entry_at(
        after,
        seq!["model_providers"@, "relaydeck"@, #[trigger] block_keys()[i]],
    ) == Some(block_entries(settings)[i]) by {
        lemma_with_entries(block, settings, 9, seq!["model_providers"@, "relaydeck"@, block_keys()[i]]);
    }
    assert(block_keys()[1] == "base_url"@);
    law_port_is_read_back(settings.gateway_port);
}

/// Applying the configuration leaves everything alone but the model, the provider and the settings
/// of the gateway: other providers, tools, sandboxes and projects stay as they are, with the values that
/// they had.
pub proof fn law_unrelated_configuration_is_preserved(
    tree: Map<Seq<Seq<char>>, TomlEntry>,
    settings: AppSettings,
    model: Seq<char>,
    path: Seq<Seq<char>>,
)
    requires
        can_hold_block(tree),
        crate::toml::is_rooted(tree),
        tree.contains_key(path),
        path.len() > 0 ==> path[0] != "model"@ && path[0] != "model_provider"@,
        !(path.len() > 2 && path[0] == "model_providers"@ && path[1] == "relaydeck"@ && block_keys().contains(path[2])),
    ensures
        crate::toml::entry_at(configured_tree(tree, settings, model), path) == Some(tree[path]),
{
    let block = with_block(tree, model);
    lemma_configured_tree(tree, settings, model);
    lemma_with_entries(block, settings, 9, path);
    if path.len() > 0 && path[0] == "model_providers"@ {
        crate::toml::lemma_way_is_there(tree, path, 1);
        assert(path.take(1) =~= seq!["model_providers"@]);
        if path.len() == 1 {
            assert(path =~= seq!["model_providers"@]);
        }
        if path.len() > 1 && path[1] == "relaydeck"@ {
            crate::toml::lemma_way_is_there(tree, path, 2);
            assert(path.take(2) =~= seq!["model_providers"@, "relaydeck"@]);
            if path.len() == 2 {
                assert(path =~= seq!["model_providers"@, "relaydeck"@]);
            }
        }
    }
    lemma_with_block_at(tree, model, path);
}

/// Whoever reads the configuration right after it was applied finds Codex configured, and not with a
/// stale port.
pub proof fn law_applied_configuration_is_not_stale(
    tree: Map<Seq<Seq<char>>, TomlEntry>,
    settings: AppSettings,
    model: Seq<char>,
    status: CodexStatus,
)
    requires
        can_hold_block(tree),
        reports(status, configured_tree(tree, settings, model), settings.gateway_port),
    ensures
        status.configured,
        !status.stale,
        status.configured_port == Some(settings.gateway_port),
        status.active_model.deep_view() == Some(model),
        status.active_provider.deep_view() == Some("relaydeck"@),
{
    law_applied_configuration_is_recognised(tree, settings, model);
}

/// A configuration that was applied for one port is stale for any other.
pub proof fn law_another_port_is_stale(
    tree: Map<Seq<Seq<char>>, TomlEntry>,
    settings: AppSettings,
    model: Seq<char>,
    status: CodexStatus,
    port: u16,
)
    requires
        can_hold_block(tree),
        reports(status, configured_tree(tree, settings, model), port),
        port != settings.gateway_port,
    ensures
        status.configured,
        status.stale,
{
    law_applied_configuration_is_recognised(tree, settings, model);
}

/// Something in the block of the gateway in the configuration of Codex.
pub open spec fn set_in_codex(tree: Map<Seq<Seq<char>>, TomlEntry>, key: Seq<char>) -> Option<TomlEntry> {
    let path = seq!["model_providers"@, "relaydeck"@, key];
    if tree.contains_key(path) {
        Some(tree[path])
    } else {
        None
    }
}

/// What Codex is told: to ask the gateway on this machine and its port, with the key from the environment,
/// over plain responses; to try a request four times more and a stream five times; and to give a stream as
/// long between two pieces as the gateway gives it, from ten seconds to an hour.
pub proof fn law_what_codex_is_told(tree: Map<Seq<Seq<char>>, TomlEntry>, settings: AppSettings, model: Seq<char>)
    requires
        can_hold_block(tree),
    ensures
        ({
            let after = configured_tree(tree, settings, model);
            let idle = settings.stream_idle_timeout_seconds;
            &&& after.contains_key(seq!["model"@]) && after[seq!["model"@]] == TomlEntry::Text(model)
            &&& after.contains_key(seq!["model_provider"@]) && after[seq!["model_provider"@]] == TomlEntry::Text(
                "relaydeck"@,
            )
            &&& set_in_codex(after, "name"@) == Some(TomlEntry::Text("RelayDeck"@))
            &&& set_in_codex(after, "base_url"@) == Some(
                TomlEntry::Text("http://127.0.0.1:"@ + text::decimal(settings.gateway_port as nat) + "/v1"@),
            )
            &&& set_in_codex(after, "env_key"@) == Some(TomlEntry::Text("RELAYDECK_API_KEY"@))
            &&& set_in_codex(after, "wire_api"@) == Some(TomlEntry::Text("responses"@))
            &&& set_in_codex(after, "requires_openai_auth"@) == Some(TomlEntry::Flag(false))
            &&& set_in_codex(after, "supports_websockets"@) == Some(TomlEntry::Flag(false))
            &&& set_in_codex(after, "request_max_retries"@) == Some(TomlEntry::Integer(4))
            &&& set_in_codex(after, "stream_max_retries"@) == Some(TomlEntry::Integer(5))
            &&& set_in_codex(after, "stream_idle_timeout_ms"@) == Some(
                TomlEntry::Integer(
                    1000 * if idle < 10 {
                        10
                    } else if idle > 3600 {
                        3600
                    } else {
                        idle as int
                    },
                ),
            )
        }),
{
    let after = configured_tree(tree, settings, model);
    law_applied_configuration_is_recognised(tree, settings, model);
    let keys = block_keys();
    let path = seq!["model_providers"@, "relaydeck"@];
    assert forall|i: int| 0 <= i < 9 implies set_in_codex(after, #[trigger] keys[i]) == Some(block_entries(settings)[i]) by {
        assert(crate::toml::entry_at(after, seq!["model_providers"@, "relaydeck"@, block_keys()[i]]) == Some(
            block_entries(settings)[i],
        ));
    }
    assert(keys[0] == "name"@ && keys[1] == "base_url"@ && keys[2] == "env_key"@ && keys[3] == "wire_api"@);
    assert(keys[4] == "requires_openai_auth"@ && keys[5] == "supports_websockets"@);
    assert(keys[6] == "request_max_retries"@ && keys[7] == "stream_max_retries"@ && keys[8] == "stream_idle_timeout_ms"@);
}

/// Codex is configured where it names the gateway as its provider and has a block for it. The configuration
/// is stale where it is for another port than the one that the gateway listens on.
pub proof fn law_what_is_reported_of_codex(status: CodexStatus, tree: Map<Seq<Seq<char>>, TomlEntry>, gateway_port: u16)
    requires
        reports(status, tree, gateway_port),
    ensures
        status.configured <==> tree.contains_key(seq!["model_provider"@]) && tree[seq!["model_provider"@]]
            == TomlEntry::Text("relaydeck"@) && tree.contains_key(seq!["model_providers"@, "relaydeck"@]),
        forall|model: Seq<char>|
            status.active_model.deep_view() == Some(model) <==> #[trigger] tree.contains_pair(
                seq!["model"@],
                TomlEntry::Text(model),
            ),
        forall|name: Seq<char>|
            status.active_provider.deep_view() == Some(name) <==> #[trigger] tree.contains_pair(
                seq!["model_provider"@],
                TomlEntry::Text(name),
            ),
        forall|port: u16|
            set_in_codex(tree, "base_url"@) == Some(
                TomlEntry::Text("http://127.0.0.1:"@ + #[trigger] text::decimal(port as nat) + "/v1"@),
            ) ==> status.configured_port == Some(port) && (status.stale <==> status.configured && port != gateway_port),
        status.configured_port is None ==> !status.stale,
{
    assert forall|port: u16|
        set_in_codex(tree, "base_url"@) == Some(
            TomlEntry::Text("http://127.0.0.1:"@ + #[trigger] text::decimal(port as nat) + "/v1"@),
        ) implies status.configured_port == Some(port) && (status.stale <==> status.configured && port != gateway_port) by {
        law_port_is_read_back(port);
    }
}

/// The environment of Codex sets the key of the gateway in a line of its own: every line that set it before,
/// with or without `export`, is replaced, all others stay, and where there was none it comes last.
pub proof fn law_the_environment_sets_the_key(lines: Seq<Seq<char>>, key: Seq<char>, line: Seq<char>)
    ensures
        ({
            let start = text::strip_start(line, text::any_white());
            sets_key(line) <==> "RELAYDECK_API_KEY="@.is_prefix_of(start) || "export RELAYDECK_API_KEY="@.is_prefix_of(
                start,
            )
        }),
        ({
            let after = lines_with_key(lines, key);
            let found = exists|i: int| 0 <= i < lines.len() && sets_key(#[trigger] lines[i]);
            &&& after.len() == lines.len() + if found {
                0int
            } else {
                1
            }
            &&& forall|i: int|
                0 <= i < lines.len() ==> (#[trigger] after[i]) == if sets_key(lines[i]) {
                    "RELAYDECK_API_KEY="@ + key
                } else {
                    lines[i]
                }
            &&& !found ==> after.last() == "RELAYDECK_API_KEY="@ + key
        }),
{
}

/// Quotes are doubled wherever they stand, and all else stays.
pub proof fn law_quotes_are_doubled(s: Seq<char>, t: Seq<char>, c: char)
    ensures
        quotes_doubled(s + t) == quotes_doubled(s) + quotes_doubled(t),
        c == '\'' ==> quotes_doubled(seq![c]) == seq!['\'', '\''],
        c != '\'' ==> quotes_doubled(seq![c]) == seq![c],
        quotes_doubled(Seq::empty()) == Seq::<char>::empty(),
    decreases t.len(),
{
    let none = Seq::<char>::empty();
    assert(seq![c].drop_last() =~= none);
    assert(quotes_doubled(none) == none);
    assert(c == '\'' ==> none.push('\'').push('\'') =~= seq!['\'', '\'']);
    assert(none.push(c) =~= seq![c]);
    if t.len() > 0 {
        law_quotes_are_doubled(s, t.drop_last(), c);
        assert((s + t).drop_last() =~= s + t.drop_last());
        assert(quotes_doubled(s + t) =~= quotes_doubled(s) + quotes_doubled(t));
    } else {
        assert(s + t =~= s);
        assert(quotes_doubled(s) + quotes_doubled(t) =~= quotes_doubled(s));
    }
}

/// A configuration that is blank is an empty one; any other is what its text says, if it says anything. The
/// block of the gateway finds its place unless something that is no table stands there.
pub proof fn law_blank_configurations_are_empty(content: Seq<char>, tree: Map<Seq<Seq<char>>, TomlEntry>)
    ensures
        (forall|i: int| 0 <= i < content.len() ==> text::is_white(#[trigger] content[i])) ==> tree_in(content) == Some(
            crate::toml::leaf(TomlEntry::Table),
        ),
        (exists|i: int| 0 <= i < content.len() && !text::is_white(#[trigger] content[i])) ==> tree_in(content)
            == crate::toml::toml_parsed(content),
        !tree.contains_key(seq!["model_providers"@]) && !tree.contains_key(seq!["model_providers"@, "relaydeck"@])
            ==> can_hold_block(tree),
        tree.contains_key(seq!["model_providers"@]) && tree[seq!["model_providers"@]] is Text ==> !can_hold_block(tree),
{
    text::law_trimming_drops_the_white_ends(content);
}

/// The port of an address stands behind its last colon and ends at the first slash behind that, or with the
/// address.
pub proof fn law_ports_stand_behind_the_last_colon(before: Seq<char>, digits: Seq<char>, rest: Seq<char>)
    requires
        forall|i: int| 0 <= i < digits.len() ==> #[trigger] digits[i] != ':' && digits[i] != '/',
        forall|i: int| 0 <= i < rest.len() ==> #[trigger] rest[i] != ':',
        rest.len() > 0 ==> rest[0] == '/',
    ensures
        port_in(before.push(':') + digits + rest) == text::port_value(digits),
{
    let url = before.push(':') + digits + rest;
    let tail = digits + rest;
    let k = before.len() as int + 1;
    assert forall|i: int| k <= i < url.len() implies !text::only(':')(#[trigger] url[i]) by {
        if i < k + digits.len() {
            assert(url[i] == digits[i - k]);
        } else {
            assert(url[i] == rest[i - k - digits.len()]);
        }
    }
    assert(url[k - 1] == ':');
    text::lemma_after_last(url, text::only(':'), k);
    assert(url.skip(k) =~= tail);
    assert forall|i: int| 0 <= i < digits.len() implies !text::only('/')(#[trigger] tail[i]) by {
        assert(tail[i] == digits[i]);
    }
    if rest.len() > 0 {
        assert(tail[digits.len() as int] == rest[0]);
    }
    text::lemma_first_piece(tail, text::only('/'), digits.len() as int);
    assert(tail.take(digits.len() as int) =~= digits);
}

/// Of a configuration that says nothing, nothing is reported but that Codex does not go through the gateway.
pub proof fn law_nothing_is_reported_of_no_configuration(status: CodexStatus)
    requires
        reports_nothing(status),
    ensures
        !status.configured && !status.stale,
        status.active_provider is None && status.active_model is None && status.configured_port is None,
{
}

/// The block of the gateway is written as the tables around it are: inline where the providers stand inline,
/// and otherwise as a table of its own. One that is there stays what it is.
pub proof fn law_blocks_are_written_as_their_surroundings(
    tree: Map<Seq<Seq<char>>, TomlEntry>,
    settings: AppSettings,
    model: Seq<char>,
)
    requires
        crate::toml::is_rooted(tree),
    ensures
        ({
            let after = configured_tree(tree, settings, model);
            let around = seq!["model_providers"@];
            let path = seq!["model_providers"@, "relaydeck"@];
            &&& after.contains_key(path)
            &&& tree.contains_key(around) && tree.contains_key(path) ==> after[path] == tree[path]
            &&& tree.contains_key(around) && tree[around] == TomlEntry::Inline && !tree.contains_key(path) ==> after[path]
                == TomlEntry::Inline
            &&& tree.contains_key(around) && tree[around] == TomlEntry::Table && !tree.contains_key(path) ==> after[path]
                == TomlEntry::Table
        }),
{
    lemma_block_kind(tree, settings, model);
}

} // verus!

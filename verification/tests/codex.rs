use relaydeck::backups::{backup_name, stale_backups};
use relaydeck::codex::{
    active_provider, apply, configure_document, discovered, env_with_key, launch_script, launched, restart, status,
    unreadable_target, RestartTarget,
};
use relaydeck::models::AppSettings;
use relaydeck::toml::{long_quote_run, TomlDocument, TomlLeaf};

fn settings() -> AppSettings {
    AppSettings { gateway_port: 1455, ..AppSettings::default() }
}

fn target(kind: &str, launch: &str) -> RestartTarget {
    RestartTarget { kind: kind.into(), launch: launch.into(), app_name: "ChatGPT".into(), version: None, installed_at: Some("t".into()) }
}

#[test]
fn preserves_unrelated_codex_configuration() {
    let mut document = TomlDocument::parse("sandbox_mode = \"workspace-write\"\n[mcp_servers.docs]\nurl = \"https://example.test\"\n").unwrap();
    let settings = AppSettings { gateway_port: 1455, ..AppSettings::default() };
    configure_document(&mut document, &settings, "gpt-5.6-sol");
    assert_eq!(document.text_one("sandbox_mode").as_deref(), Some("workspace-write"));
    assert_eq!(document.text_three("mcp_servers", "docs", "url").as_deref(), Some("https://example.test"));
    assert_eq!(document.text_one("model_provider").as_deref(), Some("relaydeck"));
    assert_eq!(document.text_three("model_providers", "relaydeck", "base_url").as_deref(), Some("http://127.0.0.1:1455/v1"));
    let written = document.to_text().parse::<toml_edit::DocumentMut>().unwrap();
    assert_eq!(written["model_providers"]["relaydeck"]["requires_openai_auth"].as_bool(), Some(false));
}

#[test]
fn updates_codex_env_without_dropping_other_values() {
    let content = env_with_key("OTHER_VALUE=keep\nRELAYDECK_API_KEY=old\n", "rd_local_new");
    assert!(content.contains("OTHER_VALUE=keep"));
    assert!(content.contains("RELAYDECK_API_KEY=rd_local_new"));
}

#[test]
fn every_setting_of_the_gateway_is_written() {
    let settings = AppSettings { gateway_port: 2000, stream_idle_timeout_seconds: 90, ..AppSettings::default() };
    let text = apply("", &settings, "glm-5").unwrap().unwrap();
    let written = text.parse::<toml_edit::DocumentMut>().unwrap();
    assert_eq!(written["model"].as_str(), Some("glm-5"));
    let block = &written["model_providers"]["relaydeck"];
    assert_eq!(block["name"].as_str(), Some("RelayDeck"));
    assert_eq!(block["base_url"].as_str(), Some("http://127.0.0.1:2000/v1"));
    assert_eq!(block["env_key"].as_str(), Some("RELAYDECK_API_KEY"));
    assert_eq!(block["wire_api"].as_str(), Some("responses"));
    assert_eq!(block["requires_openai_auth"].as_bool(), Some(false));
    assert_eq!(block["supports_websockets"].as_bool(), Some(false));
    assert_eq!(block["request_max_retries"].as_integer(), Some(4));
    assert_eq!(block["stream_max_retries"].as_integer(), Some(5));
    assert_eq!(block["stream_idle_timeout_ms"].as_integer(), Some(90_000));
}

#[test]
fn applied_configuration_is_recognised() {
    let text = apply("model = \"old\"\n# kept\n[projects.x]\ntrust = true\n", &settings(), "glm-5").unwrap().unwrap();
    assert!(text.contains("# kept"));
    assert!(text.contains("trust = true"));
    let seen = status(Some(&text), "/home/.codex/config.toml", 1455);
    assert!(seen.configured && !seen.stale);
    assert_eq!(seen.config_path, "/home/.codex/config.toml");
    assert_eq!(seen.active_model.as_deref(), Some("glm-5"));
    assert_eq!(seen.active_provider.as_deref(), Some("relaydeck"));
    assert_eq!(seen.configured_port, Some(1455));
    let moved = status(Some(&text), "p", 1456);
    assert!(moved.configured && moved.stale);
    assert_eq!(active_provider(Some(&text)).as_deref(), Some("relaydeck"));
    assert_eq!(apply(&text, &settings(), "glm-5").unwrap().unwrap(), text);
}

#[test]
fn other_configurations_are_not_taken_for_ours() {
    let seen = status(Some("model_provider = \"relaydeck\"\nmodel = 7\n"), "p", 1455);
    assert!(!seen.configured && !seen.stale);
    assert_eq!(seen.active_model, None);
    let seen = status(Some("[model_providers.relaydeck]\nbase_url = \"http://host/v1\"\n"), "p", 1455);
    assert!(!seen.configured);
    assert_eq!(seen.configured_port, None);
    assert!(!status(Some("not toml ["), "p", 1455).configured);
    assert!(!status(None, "p", 1455).configured);
    assert_eq!(active_provider(Some("not toml [")), None);
    assert_eq!(active_provider(None), None);
}

#[test]
fn broken_configurations_are_refused() {
    let refusal = apply("a = ", &settings(), "m").unwrap_err().message();
    assert!(refusal.starts_with("Codex config.toml 无法解析: "));
    assert!(refusal.len() > "Codex config.toml 无法解析: ".len());
    assert_eq!(apply("model_providers = 3", &settings(), "m").unwrap(), None);
    assert_eq!(apply("[model_providers]\nrelaydeck = []", &settings(), "m").unwrap(), None);
    assert!(apply(" \n\t", &settings(), "m").unwrap().is_some());
}

#[test]
fn tables_in_braces_are_filled_too() {
    let text = apply("model_providers = { relaydeck = { name = \"x\" }, other = { name = \"y\" } }\n", &settings(), "m").unwrap().unwrap();
    let seen = status(Some(&text), "p", 1455);
    assert!(seen.configured && !seen.stale);
    assert!(text.contains("other = { name = \"y\" }"));
}

#[test]
fn dotted_keys_are_extended() {
    let text = apply("model_providers.other.name = \"y\"\n", &settings(), "m").unwrap().unwrap();
    let document = TomlDocument::parse(&text).unwrap();
    assert_eq!(document.text_three("model_providers", "other", "name").as_deref(), Some("y"));
    assert!(status(Some(&text), "p", 1455).configured);
}

#[test]
fn environment_files_keep_their_other_lines() {
    assert_eq!(env_with_key("", "k"), "RELAYDECK_API_KEY=k\n");
    assert_eq!(env_with_key("A=1\r\n\r\nB=2", "k"), "A=1\n\nB=2\nRELAYDECK_API_KEY=k\n");
    assert_eq!(
        env_with_key("  export RELAYDECK_API_KEY=x\nRELAYDECK_API_KEYS=y\nRELAYDECK_API_KEY=z\n", "k"),
        "RELAYDECK_API_KEY=k\nRELAYDECK_API_KEYS=y\nRELAYDECK_API_KEY=k\n"
    );
    let once = env_with_key("A=1\n", "k");
    assert_eq!(env_with_key(&once, "k"), once);
}

#[test]
fn applications_are_started_with_their_quotes_doubled() {
    assert_eq!(launch_script(&target("exe", r"C:\it's.exe")), r"Start-Process -FilePath 'C:\it''s.exe'");
    assert_eq!(launch_script(&target("appx", "OpenAI!App")), r"Start-Process explorer.exe -ArgumentList 'shell:AppsFolder\OpenAI!App'");
    let result = launched(true, target("exe", "x")).unwrap();
    assert_eq!((result.app_name.as_str(), result.version, result.installed_at.as_deref()), ("ChatGPT", None, Some("t")));
    assert_eq!(launched(false, target("exe", "x")).unwrap_err().message(), "无法启动最新的 ChatGPT/Codex 桌面应用");
    assert_eq!(discovered(" {} \r\n").unwrap(), "{}");
    assert_eq!(discovered(" \r\n").unwrap_err().message(), "没有找到已安装的 ChatGPT/Codex 桌面应用");
    assert_eq!(unreadable_target("EOF").message(), "无法解析 ChatGPT/Codex 安装信息: EOF");
    assert_eq!(restart().unwrap_err().message(), "Codex 自动重启目前仅支持 Windows");
}

#[test]
fn models_of_any_spelling_are_read_back() {
    let models = ["", "it's", "a \"b\" c", "back\\slash", "two\nlines", "\r\n'''\"\"\"", "tab\t\u{7f}\u{0}", "模型", "a\n\"\"", "\\\n''", "'\"\\"];
    for model in models {
        let text = apply("# mine\n[tools]\nx = 1 # one\n", &settings(), model).unwrap().unwrap();
        assert_eq!(status(Some(&text), "config.toml", 1455).active_model.as_deref(), Some(model));
        assert!(text.contains("x = 1 # one"));
    }
}

#[test]
fn only_the_newest_backups_stay() {
    assert_eq!(backup_name("config.toml", "20260102-030405"), "config.toml.relaydeck-backup-20260102-030405");
    let mut names: Vec<String> = (1..=7).rev().map(|day| backup_name("config.toml", &format!("2026010{day}-000000"))).collect();
    names.push("config.toml".into());
    names.push("other.toml.relaydeck-backup-0".into());
    assert_eq!(
        stale_backups(&names, "config.toml", 5),
        vec![backup_name("config.toml", "20260101-000000"), backup_name("config.toml", "20260102-000000")]
    );
    assert!(stale_backups(&names, "config.toml", 7).is_empty());
    assert!(stale_backups(&names, "missing", 0).is_empty());
}

#[test]
fn configurations_of_any_layout_are_extended() {
    let layouts = [
        "model_providers.other.name = \"x\"\n[tools]\na = 1\n",
        "[model_providers.relaydeck.name]\nx = 1\n[model_providers.relaydeck.other]\ny = 2\n",
        "[model.sub]\nx = 1\n[z]\n",
        "[[model]]\nx = 1\n[[model]]\nx = 2\n[model.deep]\n",
        "model.x = 1\nmodel.y = 2\r\nmodel_provider.z = 3\n",
        "model_providers = { relaydeck.name = \"q\", other = {} }\n",
        "model_providers.relaydeck = {}\n# the end",
        "[ model_providers . relaydeck ] # ours\n[a.b]\n[a]\n",
    ];
    for layout in layouts {
        let text = apply(layout, &settings(), "m").unwrap().unwrap();
        let seen = status(Some(&text), "config.toml", 1455);
        assert!(seen.configured && !seen.stale, "{layout}");
        assert_eq!(seen.active_model.as_deref(), Some("m"));
        assert_eq!(apply(&text, &settings(), "m").unwrap().unwrap(), text);
    }
}

#[test]
fn providers_in_braces_get_one_more() {
    for layout in ["model_providers = {}\n", "model_providers = { other = { name = \"y\" } } # mine\n"] {
        let text = apply(layout, &settings(), "m").unwrap().unwrap();
        let seen = status(Some(&text), "p", 1455);
        assert!(seen.configured && !seen.stale, "{text}");
        assert_eq!(seen.configured_port, Some(1455));
        assert_eq!(apply(&text, &settings(), "m").unwrap().unwrap(), text);
    }
}

#[test]
fn arrays_and_numbers_of_other_tools_stay() {
    let kept = "args = [\"-y\", [1, 2.5], { a = 1979-05-27 }] # these\nlimit = 0.10\n";
    let text = apply(&format!("[mcp_servers.docs]\n{kept}[[profiles]]\nname = \"p\"\n"), &settings(), "m").unwrap().unwrap();
    assert!(text.contains(kept));
    let document = text.parse::<toml_edit::DocumentMut>().unwrap();
    assert_eq!(document["mcp_servers"]["docs"]["args"][0].as_str(), Some("-y"));
    assert_eq!(document["mcp_servers"]["docs"]["limit"].as_float(), Some(0.1));
    assert_eq!(document["profiles"][0]["name"].as_str(), Some("p"));
}

#[test]
fn endless_rows_of_quotes_are_recognised() {
    assert!(!long_quote_run(&"'".repeat(255)));
    assert!(long_quote_run(&format!("a{}", "'".repeat(256))));
    assert!(long_quote_run(&"\"".repeat(300)));
    assert!(!long_quote_run(&"'\"".repeat(300)));
    let model = format!("{}\n", "\"".repeat(255));
    let text = apply("", &settings(), &model).unwrap().unwrap();
    assert_eq!(status(Some(&text), "p", 1455).active_model, Some(model));
}

#[test]
fn tables_are_put_where_nothing_stood() {
    let mut document = TomlDocument::parse("# top\nx = 1\n\n[y]\n").unwrap();
    document.set_one("z", TomlLeaf::Table);
    document.set_two("y", "w", TomlLeaf::Table);
    document.set_three("y", "w", "v", TomlLeaf::Integer(7));
    document.set_one("x", TomlLeaf::Inline);
    document.set_two("x", "u", TomlLeaf::Flag(true));
    let again = TomlDocument::parse(&document.to_text()).unwrap();
    assert!(again.is_table_one("z") && again.is_table_two("y", "w") && again.is_inline_one("x"));
    assert!(!again.is_inline_one("y") && again.has_two("x", "u"));
    let mut document = TomlDocument::parse("[a.y]\n[a]\nb.e = 1\n").unwrap();
    document.set_three("a", "b", "c", TomlLeaf::Inline);
    document.set_two("a", "d", TomlLeaf::Table);
    let again = TomlDocument::parse(&document.to_text()).unwrap();
    assert!(again.is_table_two("a", "b") && again.is_table_two("a", "d") && again.is_table_two("a", "y"));
}

use relaydeck::discovery::{
    assess_models, extract_model_ids, is_valid_response_payload, judge_probe, models_reply, probe_request,
    select_codex_model, wants_body, Finding, ModelsReply, ProbeReply,
};
use relaydeck::json::Json;

fn text(value: &str) -> Json {
    Json::Str(value.to_string())
}

fn message(finding: Finding) -> String {
    match finding {
        Finding::Faulty(message) | Finding::Unreachable(message) => message,
        Finding::Listed(model, _) => panic!("{model}"),
    }
}

#[test]
fn extracts_models_from_openai_list_shape() {
    let payload = Json::object().and("data", Json::Array(vec![
        Json::object().and("id", text("gpt-5.4")),
        Json::object().and("id", text("gpt-5.6-sol")),
    ]));
    assert_eq!(extract_model_ids(&payload), vec!["gpt-5.4", "gpt-5.6-sol"]);
}

#[test]
fn model_lists_come_in_several_shapes() {
    let bare = Json::parse(br#"["b", {"id":"a"}, 7, "b", {"name":"x"}, "B"]"#).unwrap();
    assert_eq!(extract_model_ids(&bare), vec!["B", "a", "b"]);
    let wrong = Json::parse(br#"{"data":"none"}"#).unwrap();
    assert!(extract_model_ids(&wrong).is_empty());
    assert!(extract_model_ids(&Json::Null).is_empty());
}

#[test]
fn prefers_sol_for_codex_when_available() {
    let models = vec!["codex-auto-review".into(), "gpt-5.4".into(), "gpt-5.6-sol".into()];
    assert_eq!(select_codex_model(&models), "gpt-5.6-sol");
}

#[test]
fn other_models_are_chosen_by_their_names() {
    let pick = |names: &[&str]| select_codex_model(&names.iter().map(|name| name.to_string()).collect());
    assert_eq!(pick(&["x", "GPT-5.5", "gpt-5.4"]), "GPT-5.5");
    assert_eq!(pick(&["codex-review", "My-Codex-1", "z"]), "My-Codex-1");
    assert_eq!(pick(&["glm-5", "kimi"]), "glm-5");
    assert_eq!(pick(&[]), "自动获取中");
}

#[test]
fn accepts_openai_responses_payload() {
    assert!(is_valid_response_payload(
        &Json::object().and("id", text("resp_123")).and("object", text("response")).and("output", Json::Array(Vec::new()))
    ));
    assert!(!is_valid_response_payload(&Json::object().and("message", text("login required"))));
}

#[test]
fn any_sign_of_a_response_will_do() {
    assert!(is_valid_response_payload(&Json::parse(br#"{"id":"x"}"#).unwrap()));
    assert!(is_valid_response_payload(&Json::parse(br#"{"object":"response"}"#).unwrap()));
    assert!(is_valid_response_payload(&Json::parse(br#"{"output":[]}"#).unwrap()));
    assert!(!is_valid_response_payload(&Json::parse(br#"{"id":1,"object":"list","output":{}}"#).unwrap()));
}

#[test]
fn replies_to_the_model_list_are_assessed() {
    match assess_models(ModelsReply::Body(br#"{"data":[{"id":"z"},{"id":"gpt-5.4"}]}"#.to_vec())) {
        Finding::Listed(model, models) => {
            assert_eq!(model, "gpt-5.4");
            assert_eq!(models, vec!["gpt-5.4", "z"]);
        }
        other => panic!("{other:?}"),
    }
    assert_eq!(message(assess_models(ModelsReply::Body(b"{}".to_vec()))), "/models 没有返回可用模型");
    assert_eq!(
        message(assess_models(ModelsReply::Body(b"<html>".to_vec()))),
        "模型列表不是有效 JSON: error decoding response body"
    );
    assert_eq!(message(assess_models(ModelsReply::Unreadable("cut off".into()))), "模型列表不是有效 JSON: cut off");
    assert_eq!(message(assess_models(ModelsReply::Refused(403))), "HTTP 403 Forbidden");
    let gone = assess_models(ModelsReply::Unreachable("dns".into()));
    assert!(matches!(gone, Finding::Unreachable(_)));
    assert_eq!(message(gone), "dns");
}

#[test]
fn probes_ask_for_very_little() {
    assert_eq!(
        String::from_utf8(probe_request("glm-5")).unwrap(),
        r#"{"input":"Reply with OK.","max_output_tokens":16,"model":"glm-5","store":false,"stream":false}"#
    );
}

#[test]
fn answers_to_probes_are_judged() {
    assert_eq!(judge_probe("m", ProbeReply::Answer(200, r#"{"id":"resp"}"#.into())), None);
    assert_eq!(judge_probe("m", ProbeReply::Unsent("down".into())).unwrap(), "模型请求失败: down");
    assert_eq!(judge_probe("m", ProbeReply::Unreadable("cut".into())).unwrap(), "无法读取模型响应: cut");
    assert_eq!(
        judge_probe("m", ProbeReply::Answer(200, "oops".into())).unwrap(),
        "模型 m 返回的不是有效 JSON: expected value at line 1 column 1"
    );
    assert_eq!(judge_probe("m", ProbeReply::Answer(200, "{}".into())).unwrap(), "模型 m 未返回有效 Responses 结果");
    let long = "é".repeat(200);
    assert_eq!(
        judge_probe("m", ProbeReply::Answer(401, long)).unwrap(),
        format!("模型 m /responses 返回 HTTP 401 Unauthorized: {}", "é".repeat(180))
    );
}

#[test]
fn only_a_success_has_a_body_worth_reading() {
    assert!(!wants_body(199) && wants_body(200) && wants_body(299) && !wants_body(300));
    assert!(matches!(models_reply(200, Ok(vec![1])), ModelsReply::Body(body) if body == vec![1]));
    assert!(matches!(models_reply(204, Err("cut".into())), ModelsReply::Unreadable(error) if error == "cut"));
    assert!(matches!(models_reply(401, Ok(vec![1])), ModelsReply::Refused(401)));
}

use truco_bots::json::JsonValue;
use truco_bots::provider::{
    build_models_request, content_from_document, models_from_document, build_provider_request, catalog_from_discovery, catalog_without_config,
    extract_provider_content, extract_provider_models, fallback_models_from_env, models_list_var,
    provider_display_name, Attribution, HttpMethod, LlmProviderError, LlmProviderKind,
    LlmProviderModel, ProviderConfig, ProviderEnv, RequestBody, OPENROUTER_CHAT_COMPLETIONS_URL,
    OPENROUTER_MODEL_LIMIT,
};

fn config(kind: LlmProviderKind, model: &str, key: &str, chat: &str, models: &str) -> ProviderConfig {
    ProviderConfig {
        kind,
        model: model.to_string(),
        api_key: key.to_string(),
        chat_url: chat.to_string(),
        models_url: models.to_string(),
    }
}

fn no_attribution() -> Attribution {
    Attribution {
        referer: None,
        title: None,
    }
}

fn data_document(ids: &[String]) -> String {
    let entries: Vec<String> = ids.iter().map(|id| format!("{{\"id\":\"{id}\"}}")).collect();
    format!("{{\"data\":[{}]}}", entries.join(","))
}

#[test]
fn byok_override_key_is_used_without_env() {
    let config = ProviderConfig::from_env_with_key(
        LlmProviderKind::OpenRouter,
        Some("x-ai/grok-2".to_string()),
        Some("byok-secret".to_string()),
        &ProviderEnv::empty(),
    )
    .expect("byok config should resolve");
    assert_eq!(config.api_key, "byok-secret");
    assert_eq!(config.model, "x-ai/grok-2");
    assert_eq!(config.chat_url, OPENROUTER_CHAT_COMPLETIONS_URL);
}

#[test]
fn blank_byok_key_does_not_satisfy_config() {
    let result = ProviderConfig::from_env_with_key(
        LlmProviderKind::OpenRouter,
        Some("x-ai/grok-2".to_string()),
        Some("   ".to_string()),
        &ProviderEnv::empty(),
    );
    assert!(matches!(result, Err(LlmProviderError::MissingConfig(_))));
}

#[test]
fn openai_request_uses_json_chat_shape() {
    let request = build_provider_request(
        &config(
            LlmProviderKind::OpenAi,
            "test-model",
            "key",
            "https://example.test/chat",
            "https://example.test/models",
        ),
        "system prompt",
        "{\"instruction\":\"play\"}".to_string(),
        &no_attribution(),
    );
    assert!(matches!(request.method, HttpMethod::Post));
    assert_eq!(request.url, "https://example.test/chat");
    match request.body.expect("body should exist") {
        RequestBody::ChatCompletions { model, .. } => assert_eq!(model, "test-model"),
        other => panic!("unexpected body {other:?}"),
    }
}

#[test]
fn openrouter_request_uses_bearer_auth_and_attribution() {
    let request = build_provider_request(
        &config(
            LlmProviderKind::OpenRouter,
            "x-ai/grok-2",
            "or-key",
            "https://openrouter.test/chat",
            "https://openrouter.test/models",
        ),
        "system prompt",
        "{\"instruction\":\"play\"}".to_string(),
        &no_attribution(),
    );
    assert!(matches!(request.method, HttpMethod::Post));
    assert_eq!(request.url, "https://openrouter.test/chat");
    assert!(request
        .headers
        .iter()
        .any(|(name, value)| name == "authorization" && value == "Bearer or-key"));
    match request.body.as_ref().expect("body should exist") {
        RequestBody::ChatCompletions {
            model,
            response_format,
            ..
        } => {
            assert_eq!(model, "x-ai/grok-2");
            assert_eq!(response_format, "json_object");
        }
        other => panic!("unexpected body {other:?}"),
    }
    assert!(request.headers.iter().any(|(name, _)| name == "X-Title"));
}

#[test]
fn openrouter_attribution_headers_follow_the_environment() {
    let request = build_provider_request(
        &config(LlmProviderKind::OpenRouter, "m", "k", "https://c", "https://m"),
        "s",
        "u".to_string(),
        &Attribution {
            referer: Some("https://baixada.example".to_string()),
            title: Some("Lab".to_string()),
        },
    );
    let headers: Vec<(&str, &str)> = request
        .headers
        .iter()
        .map(|(n, v)| (n.as_str(), v.as_str()))
        .collect();
    assert_eq!(
        headers,
        vec![
            ("authorization", "Bearer k"),
            ("content-type", "application/json"),
            ("HTTP-Referer", "https://baixada.example"),
            ("X-Title", "Lab"),
        ]
    );
    let default_title = build_provider_request(
        &config(LlmProviderKind::OpenRouter, "m", "k", "https://c", "https://m"),
        "s",
        "u".to_string(),
        &no_attribution(),
    );
    assert_eq!(
        default_title.headers.last().unwrap(),
        &("X-Title".to_string(), "Baixada Truco".to_string())
    );
}

#[test]
fn anthropic_request_uses_messages_shape() {
    let request = build_provider_request(
        &config(LlmProviderKind::Anthropic, "haiku", "ak", "https://a/chat", "https://a/models"),
        "sys",
        "user".to_string(),
        &no_attribution(),
    );
    assert_eq!(
        request.headers,
        vec![
            ("x-api-key".to_string(), "ak".to_string()),
            ("anthropic-version".to_string(), "2023-06-01".to_string()),
            ("content-type".to_string(), "application/json".to_string()),
        ]
    );
    assert_eq!(
        request.body,
        Some(RequestBody::Messages {
            model: "haiku".to_string(),
            max_tokens: 800,
            system: "sys".to_string(),
            user: "user".to_string(),
        })
    );
}

#[test]
fn models_requests_are_authenticated_gets() {
    let openai = build_models_request(&config(LlmProviderKind::OpenAi, "m", "k", "c", "https://o/models"));
    assert_eq!(openai.method, HttpMethod::Get);
    assert_eq!(openai.url, "https://o/models");
    assert_eq!(
        openai.headers,
        vec![("authorization".to_string(), "Bearer k".to_string())]
    );
    assert!(openai.body.is_none());
    let anthropic = build_models_request(&config(LlmProviderKind::Anthropic, "m", "k", "c", "u"));
    assert_eq!(anthropic.headers.len(), 2);
    assert_eq!(anthropic.headers[0], ("x-api-key".to_string(), "k".to_string()));
}

#[test]
fn anthropic_content_extraction_reads_text_blocks() {
    let content = extract_provider_content(
        LlmProviderKind::Anthropic,
        r#"{
            "content": [
                { "type": "text", "text": "{\"reasoning\":\"brief\",\"choices\":[{\"action\":{\"type\":\"fold\"},\"weight\":1.0}]}" }
            ]
        }"#,
    )
    .expect("content should extract");
    assert!(content.contains("\"choices\""));
}

#[test]
fn anthropic_content_skips_non_text_blocks() {
    let content = extract_provider_content(
        LlmProviderKind::Anthropic,
        r#"{"content":[{"type":"tool_use","text":"no"},{"type":"text","text":7},{"type":"text","text":"yes"}]}"#,
    )
    .expect("content should extract");
    assert_eq!(content, "yes");
    let missing = extract_provider_content(LlmProviderKind::Anthropic, r#"{"content":[]}"#);
    match missing {
        Err(LlmProviderError::InvalidResponse(m)) => {
            assert_eq!(m, "Anthropic response did not include a text content block")
        }
        other => panic!("unexpected {other:?}"),
    }
}

#[test]
fn chat_content_extraction_reads_the_first_choice() {
    let content = extract_provider_content(
        LlmProviderKind::OpenAi,
        r#"{"choices":[{"message":{"content":"hello"}},{"message":{"content":"other"}}]}"#,
    )
    .expect("content should extract");
    assert_eq!(content, "hello");
    match extract_provider_content(LlmProviderKind::OpenRouter, r#"{"choices":[]}"#) {
        Err(LlmProviderError::InvalidResponse(m)) => assert_eq!(
            m,
            "OpenAI-compatible response did not include choices[0].message.content"
        ),
        other => panic!("unexpected {other:?}"),
    }
}

#[test]
fn malformed_answers_are_invalid_responses() {
    assert!(matches!(
        extract_provider_content(LlmProviderKind::OpenAi, "not json"),
        Err(LlmProviderError::InvalidResponse(_))
    ));
    assert!(matches!(
        extract_provider_models(LlmProviderKind::OpenAi, "{"),
        Err(LlmProviderError::InvalidResponse(_))
    ));
    match extract_provider_models(LlmProviderKind::OpenAi, r#"{"items":[]}"#) {
        Err(LlmProviderError::InvalidResponse(m)) => {
            assert_eq!(m, "Provider model response did not include a model list")
        }
        other => panic!("unexpected {other:?}"),
    }
}

#[test]
fn openrouter_models_preserve_popularity_order_and_cap() {
    let mut ids = vec![
        "x-ai/grok-2".to_string(),
        "anthropic/haiku".to_string(),
        "x-ai/grok-2".to_string(),
    ];
    for index in 0..30 {
        ids.push(format!("zzz/model-{index:02}"));
    }
    let raw = data_document(&ids);
    let models =
        extract_provider_models(LlmProviderKind::OpenRouter, &raw).expect("models should parse");
    assert_eq!(models.len(), OPENROUTER_MODEL_LIMIT);
    assert_eq!(models[0].id, "x-ai/grok-2");
    assert_eq!(models[1].id, "anthropic/haiku");
    assert_eq!(models[2].id, "zzz/model-00");
}

#[test]
fn openrouter_models_guarantee_family_coverage() {
    let mut ids: Vec<String> = (0..30).map(|index| format!("indie/model-{index:02}")).collect();
    for id in [
        "openai/gpt-test",
        "anthropic/haiku-test",
        "google/gemini-test",
        "deepseek/deepseek-test",
        "z-ai/glm-test",
    ] {
        ids.push(id.to_string());
    }
    let raw = data_document(&ids);
    let models =
        extract_provider_models(LlmProviderKind::OpenRouter, &raw).expect("models should parse");
    let ids = models.iter().map(|m| m.id.as_str()).collect::<Vec<_>>();
    assert_eq!(ids.len(), OPENROUTER_MODEL_LIMIT);
    for id in [
        "openai/gpt-test",
        "anthropic/haiku-test",
        "google/gemini-test",
        "deepseek/deepseek-test",
        "z-ai/glm-test",
    ] {
        assert!(ids.contains(&id), "missing family model {id}");
    }
    assert_eq!(ids[0], "indie/model-00");
    assert_eq!(ids[19], "indie/model-19");
    assert!(!ids.contains(&"indie/model-20"));
}

#[test]
fn openrouter_family_quota_is_three_per_lab() {
    let mut ids: Vec<String> = (0..30).map(|index| format!("indie/model-{index:02}")).collect();
    for index in 0..5 {
        ids.push(format!("openai/gpt-{index}"));
    }
    let models = extract_provider_models(LlmProviderKind::OpenRouter, &data_document(&ids))
        .expect("models should parse");
    let openai: Vec<&str> = models
        .iter()
        .map(|m| m.id.as_str())
        .filter(|id| id.starts_with("openai/"))
        .collect();
    assert_eq!(openai, vec!["openai/gpt-0", "openai/gpt-1", "openai/gpt-2"]);
    assert_eq!(models.len(), OPENROUTER_MODEL_LIMIT);
    assert_eq!(models[21].id, "indie/model-21");
}

#[test]
fn short_openrouter_lists_are_kept_whole() {
    let ids = vec!["b/one".to_string(), "a/two".to_string(), "b/one".to_string()];
    let models = extract_provider_models(LlmProviderKind::OpenRouter, &data_document(&ids))
        .expect("models should parse");
    assert_eq!(
        models,
        vec![
            LlmProviderModel { id: "b/one".to_string() },
            LlmProviderModel { id: "a/two".to_string() },
        ]
    );
}

#[test]
fn openai_models_stay_alphabetical() {
    let raw = r#"{"data":[{"id":"gpt-b"},{"id":"gpt-a"},{"id":"gpt-a"}]}"#;
    let models =
        extract_provider_models(LlmProviderKind::OpenAi, raw).expect("models should parse");
    assert_eq!(
        models.iter().map(|m| m.id.as_str()).collect::<Vec<_>>(),
        vec!["gpt-a", "gpt-b"]
    );
}

#[test]
fn anthropic_models_read_the_models_list_and_skip_entries_without_ids() {
    let raw = r#"{"models":[{"id":"haiku-b"},{"name":"x"},{"id":3},{"id":"haiku-a"}]}"#;
    let models =
        extract_provider_models(LlmProviderKind::Anthropic, raw).expect("models should parse");
    assert_eq!(
        models.iter().map(|m| m.id.as_str()).collect::<Vec<_>>(),
        vec!["haiku-a", "haiku-b"]
    );
}

#[test]
fn missing_model_and_key_name_their_variables() {
    match ProviderConfig::from_env(LlmProviderKind::OpenAi, None, &ProviderEnv::empty()) {
        Err(LlmProviderError::MissingConfig(m)) => assert_eq!(
            m,
            "Missing bot model. Set bot_model in the request or TRUCO_OPENAI_MODEL in the environment."
        ),
        other => panic!("unexpected {other:?}"),
    }
    match ProviderConfig::from_env(
        LlmProviderKind::Anthropic,
        Some("haiku".to_string()),
        &ProviderEnv::empty(),
    ) {
        Err(LlmProviderError::MissingConfig(m)) => {
            assert_eq!(m, "Missing ANTHROPIC_API_KEY for the Anthropic bot.")
        }
        other => panic!("unexpected {other:?}"),
    }
}

#[test]
fn environment_values_fill_the_config() {
    let env = ProviderEnv {
        model: Some("env-model".to_string()),
        api_key: Some("env-key".to_string()),
        base_url: Some("https://proxy/chat".to_string()),
        models_url: None,
    };
    let config = ProviderConfig::from_env(LlmProviderKind::OpenAi, Some("  ".to_string()), &env)
        .expect("config");
    assert_eq!(config.model, "env-model");
    assert_eq!(config.api_key, "env-key");
    assert_eq!(config.chat_url, "https://proxy/chat");
    assert_eq!(config.models_url, "https://api.openai.com/v1/models");
    let with_key = ProviderConfig::from_env_with_key(
        LlmProviderKind::OpenAi,
        Some("asked".to_string()),
        Some("mine".to_string()),
        &env,
    )
    .expect("config");
    assert_eq!(with_key.model, "asked");
    assert_eq!(with_key.api_key, "mine");
}

#[test]
fn display_names_and_list_variables() {
    assert_eq!(provider_display_name(LlmProviderKind::OpenRouter), "OpenRouter");
    assert_eq!(provider_display_name(LlmProviderKind::OpenAi), "OpenAI");
    assert_eq!(models_list_var(LlmProviderKind::Anthropic), "TRUCO_ANTHROPIC_MODELS");
}

#[test]
fn fallback_models_trim_split_and_front_the_default() {
    let models = fallback_models_from_env(
        Some(" gpt-a , ,gpt-b,".to_string()),
        Some("gpt-c".to_string()),
    );
    assert_eq!(
        models.iter().map(|m| m.id.as_str()).collect::<Vec<_>>(),
        vec!["gpt-c", "gpt-a", "gpt-b"]
    );
    let kept = fallback_models_from_env(Some("gpt-a,gpt-b".to_string()), Some("gpt-b".to_string()));
    assert_eq!(kept.len(), 2);
    assert!(fallback_models_from_env(None, None).is_empty());
}

#[test]
fn catalogs_follow_configuration_and_discovery() {
    let fallback = vec![LlmProviderModel { id: "f".to_string() }];
    let disabled = catalog_without_config(
        LlmProviderKind::OpenAi,
        None,
        &LlmProviderError::MissingConfig("Missing OPENAI_API_KEY for the OpenAI bot.".to_string()),
        fallback.clone(),
    );
    assert!(!disabled.enabled);
    assert_eq!(disabled.models, fallback);
    assert_eq!(
        disabled.note.as_deref(),
        Some("Missing OPENAI_API_KEY for the OpenAI bot.")
    );

    let cfg = config(LlmProviderKind::OpenAi, "gpt-z", "k", "c", "m");
    let discovered = catalog_from_discovery(
        cfg.clone(),
        Ok(vec![LlmProviderModel { id: "gpt-a".to_string() }]),
        fallback.clone(),
    );
    assert!(discovered.enabled);
    assert_eq!(discovered.default_model.as_deref(), Some("gpt-z"));
    assert_eq!(
        discovered.models.iter().map(|m| m.id.as_str()).collect::<Vec<_>>(),
        vec!["gpt-z", "gpt-a"]
    );
    assert!(discovered.note.is_none());

    let failed = catalog_from_discovery(
        cfg,
        Err(LlmProviderError::Transport("down".to_string())),
        fallback.clone(),
    );
    assert_eq!(failed.models, fallback);
    assert_eq!(
        failed.note.as_deref(),
        Some("Using environment-configured model options because provider model discovery was unavailable.")
    );
}

fn text(s: &str) -> JsonValue {
    JsonValue::Text(s.to_string())
}

fn object(entries: Vec<(&str, JsonValue)>) -> JsonValue {
    JsonValue::Object(entries.into_iter().map(|(k, v)| (k.to_string(), v)).collect())
}

#[test]
fn parsed_chat_documents_give_their_reply() {
    let chat = object(vec![(
        "choices",
        JsonValue::Array(vec![object(vec![("message", object(vec![("content", text("hi"))]))])]),
    )]);
    assert_eq!(content_from_document(LlmProviderKind::OpenAi, &chat).unwrap(), "hi");
    assert_eq!(
        content_from_document(LlmProviderKind::Anthropic, &chat),
        Err(LlmProviderError::InvalidResponse(
            "Anthropic response did not include a text content block".to_string()
        ))
    );
    let anthropic = object(vec![(
        "content",
        JsonValue::Array(vec![
            object(vec![("type", text("image")), ("text", text("no"))]),
            object(vec![("type", text("text")), ("text", JsonValue::Number("3".to_string()))]),
            object(vec![("type", text("text")), ("text", text("yes"))]),
        ]),
    )]);
    assert_eq!(content_from_document(LlmProviderKind::Anthropic, &anthropic).unwrap(), "yes");
    assert_eq!(
        content_from_document(LlmProviderKind::OpenRouter, &JsonValue::Null),
        Err(LlmProviderError::InvalidResponse(
            "OpenAI-compatible response did not include choices[0].message.content".to_string()
        ))
    );
}

#[test]
fn parsed_discovery_documents_give_their_models() {
    let entry = |id: &str| object(vec![("id", text(id))]);
    let doc = object(vec![(
        "models",
        JsonValue::Array(vec![entry("b"), object(vec![("name", text("x"))]), entry("a"), entry("b")]),
    )]);
    let models = models_from_document(LlmProviderKind::OpenAi, &doc).unwrap();
    let ids: Vec<&str> = models.iter().map(|m| m.id.as_str()).collect();
    assert_eq!(ids, vec!["a", "b"]);
    let routed = models_from_document(LlmProviderKind::OpenRouter, &doc).unwrap();
    let routed_ids: Vec<&str> = routed.iter().map(|m| m.id.as_str()).collect();
    assert_eq!(routed_ids, vec!["b", "a"]);
    assert_eq!(
        models_from_document(LlmProviderKind::OpenAi, &object(vec![("data", text("no"))])),
        Err(LlmProviderError::InvalidResponse(
            "Provider model response did not include a model list".to_string()
        ))
    );
}

#[test]
fn openrouter_shortlist_drops_repeats_and_keeps_first_occurrence_order() {
    let ids: Vec<String> = ["x/b", "openai/a", "x/b", "y/c", "openai/a", "z/d"]
        .iter()
        .map(|s| s.to_string())
        .collect();
    let models = extract_provider_models(LlmProviderKind::OpenRouter, &data_document(&ids))
        .expect("models should extract");
    let got: Vec<&str> = models.iter().map(|m| m.id.as_str()).collect();
    assert_eq!(got, vec!["x/b", "openai/a", "y/c", "z/d"]);
}

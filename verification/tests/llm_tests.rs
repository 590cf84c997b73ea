use tanuki::llm::{
    clean_ollama_url, embedding_input, provider_target, select_model_config, ChatModelConfig, ModelCapabilities,
    ModelProvider, ParsedModelsConfig, ProviderError, ProviderSpec,
};

fn config(name: &str, provider: ModelProvider, base_url: Option<&str>, api_key: Option<&str>) -> ChatModelConfig {
    ChatModelConfig {
        model_name: name.to_string(),
        provider,
        display_name: None,
        base_url: base_url.map(|s| s.to_string()),
        api_key: api_key.map(|s| s.to_string()),
        capabilities: ModelCapabilities::default(),
        custom_options: serde_json::Value::Null,
    }
}

#[test]
fn capabilities_default_to_none() {
    let c = ModelCapabilities::default();
    assert!(!c.reasoning && !c.vision && !c.websearch && !c.cors && !c.curl);
}

#[test]
fn select_from_keyed_config() {
    let parsed = ParsedModelsConfig::Keyed(vec![
        ("a".to_string(), config("model-a", ModelProvider::Ollama, None, None)),
        ("gemma".to_string(), config("gemma4:e4b", ModelProvider::Ollama, None, None)),
    ]);
    let c = select_model_config(parsed, "gemma", "cfg.json").ok().unwrap();
    assert_eq!(c.model_name, "gemma4:e4b");
    let parsed = ParsedModelsConfig::Keyed(vec![]);
    let e = select_model_config(parsed, "gemma", "cfg.json").err().unwrap();
    assert_eq!(e.message(), "Model 'gemma' not found in models config map");
}

#[test]
fn select_from_config_list() {
    let parsed = ParsedModelsConfig::List(vec![
        config("x", ModelProvider::Gemini, None, Some("k1")),
        config("y", ModelProvider::Local, Some("http://h:1"), None),
        config("x", ModelProvider::Gemini, None, Some("k2")),
    ]);
    let c = select_model_config(parsed, "x", "cfg.json").ok().unwrap();
    assert_eq!(c.api_key.as_deref(), Some("k1"));
    let e = select_model_config(ParsedModelsConfig::List(vec![]), "z", "cfg.json").err().unwrap();
    assert_eq!(e.message(), "Model 'z' not found in models config list");
    let e = select_model_config(ParsedModelsConfig::Invalid, "z", "cfg.json").err().unwrap();
    assert_eq!(e.message(), "Invalid models config format in cfg.json");
}

#[test]
fn provider_targets() {
    match provider_target(config("g", ModelProvider::Gemini, None, Some("key"))).ok().unwrap() {
        ProviderSpec::Gemini { api_key, model } => {
            assert_eq!(api_key, "key");
            assert_eq!(model, "g");
        }
        _ => panic!("expected gemini"),
    }
    let e = provider_target(config("g", ModelProvider::Gemini, None, None)).err().unwrap();
    assert!(matches!(e, ProviderError::MissingApiKey));
    assert_eq!(e.message(), "API key is required for Gemini provider");
    match provider_target(config("o", ModelProvider::Ollama, None, None)).ok().unwrap() {
        ProviderSpec::Ollama { base_url, model } => {
            assert_eq!(base_url, "http://localhost:11434");
            assert_eq!(model, "o");
        }
        _ => panic!("expected ollama"),
    }
    match provider_target(config("l", ModelProvider::Local, Some("http://box:8080/v1"), None)).ok().unwrap() {
        ProviderSpec::Ollama { base_url, .. } => assert_eq!(base_url, "http://box:8080"),
        _ => panic!("expected ollama"),
    }
    let e = provider_target(config("o", ModelProvider::OpenRouter, None, None)).err().unwrap();
    assert_eq!(e.message(), "Provider 'OpenRouter' is not yet supported in Rust core");
    let e = provider_target(config("o", ModelProvider::OpenAi, None, None)).err().unwrap();
    assert_eq!(e.message(), "Provider 'OpenAi' is not yet supported in Rust core");
}

#[test]
fn ollama_urls_lose_their_api_path() {
    for u in ["http://h:1/v1", "http://h:1/v1/", "http://h:1", "http://h:1/v1/v1", "http://h:1/v1/v1/", "/v1"] {
        let expected = if u.ends_with("/v1") {
            u.trim_end_matches("/v1").to_string()
        } else if u.ends_with("/v1/") {
            u.trim_end_matches("/v1/").to_string()
        } else {
            u.to_string()
        };
        assert_eq!(clean_ollama_url(u.to_string()), expected, "input {:?}", u);
    }
    assert_eq!(clean_ollama_url("http://h:1/v1/v1".to_string()), "http://h:1");
}

#[test]
fn embedding_input_keeps_the_first_2000_characters() {
    let long: String = std::iter::repeat('あ').take(2500).collect();
    assert_eq!(embedding_input(&long).chars().count(), 2000);
    let exact: String = std::iter::repeat('x').take(2000).collect();
    assert_eq!(embedding_input(&exact), exact);
    assert_eq!(embedding_input("short"), "short");
}

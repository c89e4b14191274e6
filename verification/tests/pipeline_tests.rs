use aegisnode::config::{AppConfig, DestinationProvider, PrivacyRule};
use aegisnode::engine::{ProxyEngine, RequestAction, RequestEvent, RequestStage};
use aegisnode::error::AppError;
use aegisnode::openai::{ForwardAction, ForwardEvent, ForwardStage, OpenAIModule};
use aegisnode::upstream::{forward_uri, upstream_failure};

fn destination(name: &str) -> DestinationProvider {
    DestinationProvider {
        name: name.to_string(),
        endpoint: "https://api.example.com/v1".to_string(),
        api_key: "sk-test".to_string(),
        model: None,
    }
}

fn message(e: &AppError) -> (&'static str, String) {
    match e {
        AppError::Destination(m) => ("destination", m.clone()),
        AppError::Internal(m) => ("internal", m.clone()),
        AppError::Parsing(m) => ("parsing", m.clone()),
        AppError::Config(m) => ("config", m.clone()),
    }
}

#[test]
fn registering_gives_slots_and_reuses_names() {
    let mut engine = ProxyEngine::new();
    assert_eq!(engine.module_slot("openai"), None);
    assert_eq!(engine.register_module("openai".to_string()), 0);
    assert_eq!(engine.register_module("azure".to_string()), 1);
    assert_eq!(engine.register_module("openai".to_string()), 0);
    assert_eq!(engine.module_slot("openai"), Some(0));
    assert_eq!(engine.module_slot("azure"), Some(1));
    assert_eq!(engine.module_slot("other"), None);
}

#[test]
fn request_routes_to_registered_module() {
    let mut engine = ProxyEngine::new();
    engine.register_module("openai".to_string());
    let (stage, action) = engine.request_step(RequestStage::Routing, RequestEvent::ConfigRead(Some(destination("openai"))));
    match stage {
        RequestStage::AwaitingOnRequest { slot, endpoint } => {
            assert_eq!(slot, 0);
            assert_eq!(endpoint, "https://api.example.com/v1");
        }
        _ => panic!("expected the request hook to be awaited"),
    }
    assert!(matches!(action, RequestAction::CallOnRequest { slot: 0 }));
}

#[test]
fn request_without_module_is_a_config_error() {
    let engine = ProxyEngine::new();
    let (stage, action) = engine.request_step(RequestStage::Routing, RequestEvent::ConfigRead(Some(destination("anthropic"))));
    assert!(matches!(stage, RequestStage::Finished));
    match action {
        RequestAction::ReturnError(e) => {
            assert_eq!(message(&e), ("config", "No module found for destination: anthropic".to_string()));
            assert_eq!(e.to_response().status, 503);
        }
        _ => panic!("expected an error"),
    }
}

#[test]
fn request_with_unreadable_config_is_internal_error() {
    let engine = ProxyEngine::new();
    let (_, action) = engine.request_step(RequestStage::Routing, RequestEvent::ConfigRead(None));
    match action {
        RequestAction::ReturnError(e) => assert_eq!(message(&e), ("internal", "Config lock failed".to_string())),
        _ => panic!("expected an error"),
    }
}

fn awaiting_module(slot: usize) -> RequestStage {
    RequestStage::AwaitingOnRequest { slot, endpoint: "https://api.example.com/v1".to_string() }
}

#[test]
fn module_answer_ends_the_pipeline() {
    let engine = ProxyEngine::new();
    let (stage, action) = engine.request_step(awaiting_module(3), RequestEvent::OnRequestDone(Ok(true)));
    assert!(matches!(stage, RequestStage::Finished));
    assert!(matches!(action, RequestAction::ReturnModuleResponse));
}

#[test]
fn module_pass_forwards_then_runs_response_hook() {
    let engine = ProxyEngine::new();
    let (stage, action) = engine.request_step(awaiting_module(3), RequestEvent::OnRequestDone(Ok(false)));
    assert!(matches!(stage, RequestStage::AwaitingUpstream { slot: 3 }));
    match action {
        RequestAction::Forward { endpoint } => assert_eq!(endpoint, "https://api.example.com/v1"),
        _ => panic!("expected forwarding"),
    }
    let (stage, action) = engine.request_step(stage, RequestEvent::UpstreamDone(Ok(())));
    assert!(matches!(stage, RequestStage::AwaitingOnResponse { slot: 3 }));
    assert!(matches!(action, RequestAction::CallOnResponse { slot: 3 }));
    let (stage, action) = engine.request_step(stage, RequestEvent::OnResponseDone(Ok(())));
    assert!(matches!(stage, RequestStage::Finished));
    assert!(matches!(action, RequestAction::ReturnUpstreamResponse));
}

#[test]
fn upstream_failure_ends_the_pipeline_with_its_error() {
    let engine = ProxyEngine::new();
    let (stage, action) = engine.request_step(
        RequestStage::AwaitingUpstream { slot: 1 },
        RequestEvent::UpstreamDone(Err(upstream_failure("timeout"))),
    );
    assert!(matches!(stage, RequestStage::Finished));
    match action {
        RequestAction::ReturnError(e) => {
            assert_eq!(message(&e), ("destination", "Upstream request failed: timeout".to_string()));
            assert_eq!(e.to_response().status, 502);
        }
        _ => panic!("expected an error"),
    }
}

#[test]
fn full_run_of_the_pipeline_answers_within_four_events() {
    let mut engine = ProxyEngine::new();
    engine.register_module("openai".to_string());
    let events = vec![
        RequestEvent::ConfigRead(Some(destination("openai"))),
        RequestEvent::OnRequestDone(Ok(false)),
        RequestEvent::UpstreamDone(Ok(())),
        RequestEvent::OnResponseDone(Ok(())),
    ];
    let mut stage = RequestStage::Routing;
    let mut answered = false;
    for event in events {
        assert!(!matches!(stage, RequestStage::Finished));
        let (next, action) = engine.request_step(stage, event);
        stage = next;
        answered = matches!(
            action,
            RequestAction::ReturnModuleResponse | RequestAction::ReturnUpstreamResponse | RequestAction::ReturnError(_)
        );
    }
    assert!(matches!(stage, RequestStage::Finished));
    assert!(answered);
}

#[test]
fn module_errors_are_returned() {
    let engine = ProxyEngine::new();
    let (_, action) = engine.request_step(
        awaiting_module(0),
        RequestEvent::OnRequestDone(Err(AppError::Parsing("bad".to_string()))),
    );
    match action {
        RequestAction::ReturnError(e) => assert_eq!(message(&e), ("parsing", "bad".to_string())),
        _ => panic!("expected an error"),
    }
    let (_, action) = engine.request_step(
        RequestStage::AwaitingOnResponse { slot: 0 },
        RequestEvent::OnResponseDone(Err(AppError::Destination("down".to_string()))),
    );
    match action {
        RequestAction::ReturnError(e) => assert_eq!(message(&e), ("destination", "down".to_string())),
        _ => panic!("expected an error"),
    }
}

fn config() -> AppConfig {
    AppConfig {
        destination: destination("openai"),
        rules: vec![PrivacyRule {
            name: "name".to_string(),
            rule_type: "entity".to_string(),
            value: "Alice".to_string(),
            action: Some("redact".to_string()),
            replace: None,
        }],
    }
}

#[test]
fn openai_pipeline_scans_then_forwards() {
    let module = OpenAIModule;
    let (stage, action) = module.on_request_step(ForwardStage::AwaitingConfig, ForwardEvent::ConfigRead(Ok(config())));
    match action {
        ForwardAction::ScanBody(scanner) => assert_eq!(scanner.redact("hi Alice"), "hi *****"),
        _ => panic!("expected a scan"),
    }
    let (stage, action) = module.on_request_step(stage, ForwardEvent::ScanDone(Ok(())));
    match action {
        ForwardAction::Forward { endpoint, authorization } => {
            assert_eq!(endpoint, "https://api.example.com/v1");
            assert_eq!(authorization.text(), "Bearer sk-test");
            assert_eq!(authorization.into_value().to_str().unwrap(), "Bearer sk-test");
        }
        _ => panic!("expected forwarding"),
    }
    let (stage, action) = module.on_request_step(stage, ForwardEvent::ForwardDone(Ok(())));
    assert!(matches!(stage, ForwardStage::Finished));
    assert!(matches!(action, ForwardAction::ReturnResponse));
}

#[test]
fn openai_pipeline_errors() {
    let module = OpenAIModule;
    let (_, action) = module.on_request_step(ForwardStage::AwaitingConfig, ForwardEvent::ConfigRead(Err("poisoned".to_string())));
    match action {
        ForwardAction::Fail(e) => assert_eq!(message(&e), ("internal", "Config lock error: poisoned".to_string())),
        _ => panic!("expected failure"),
    }
    let stage = ForwardStage::AwaitingScan { endpoint: "e".to_string(), api_key: "k".to_string() };
    let (_, action) = module.on_request_step(stage, ForwardEvent::ScanDone(Err("body".to_string())));
    match action {
        ForwardAction::Fail(e) => assert_eq!(message(&e), ("parsing", "PII Scanning failed: body".to_string())),
        _ => panic!("expected failure"),
    }
    let stage = ForwardStage::AwaitingScan { endpoint: "e".to_string(), api_key: "bad\nkey".to_string() };
    let (_, action) = module.on_request_step(stage, ForwardEvent::ScanDone(Ok(())));
    match action {
        ForwardAction::Fail(e) => assert_eq!(
            message(&e),
            ("config", "Invalid API key format: failed to parse header value".to_string())
        ),
        _ => panic!("expected failure"),
    }
    let (_, action) = module.on_request_step(
        ForwardStage::AwaitingForward,
        ForwardEvent::ForwardDone(Err(AppError::Destination("x".to_string()))),
    );
    assert!(matches!(action, ForwardAction::Fail(AppError::Destination(_))));
}

#[test]
fn authorization_is_bearer_and_key() {
    let h = OpenAIModule::authorization("sk-abc").unwrap();
    assert_eq!(h.text(), "Bearer sk-abc");
    assert_eq!(h.into_value(), hyper::header::HeaderValue::from_static("Bearer sk-abc"));
}

#[test]
fn authorization_accepts_obs_text_and_rejects_controls() {
    assert!(OpenAIModule::authorization("key-with-ü").is_ok());
    assert!(OpenAIModule::authorization("tab\tok").is_ok());
    assert!(OpenAIModule::authorization("del\u{7f}").is_err());
}

#[test]
fn forward_uri_joins_endpoint_and_path() {
    let target = forward_uri("https://api.openai.com/v1", "/chat/completions?x=1").unwrap();
    assert_eq!(target.text(), "https://api.openai.com/v1/chat/completions?x=1");
    let uri = target.into_uri();
    assert_eq!(uri.to_string(), "https://api.openai.com/v1/chat/completions?x=1");
    assert_eq!(uri.host(), Some("api.openai.com"));
    assert_eq!(uri.path(), "/v1/chat/completions");
    assert_eq!(uri.query(), Some("x=1"));
}

#[test]
fn forward_uri_reports_bad_uris() {
    match forward_uri("not a uri", "") {
        Err(AppError::Internal(m)) => assert_eq!(m, "Invalid URI construction: invalid uri character"),
        _ => panic!("expected an internal error"),
    }
}

#[test]
fn forward_uri_reports_an_empty_target() {
    match forward_uri("", "") {
        Err(AppError::Internal(m)) => assert_eq!(m, "Invalid URI construction: empty string"),
        _ => panic!("expected an internal error"),
    }
}

#[test]
fn upstream_failure_is_a_destination_error() {
    assert_eq!(
        message(&upstream_failure("connection refused")),
        ("destination", "Upstream request failed: connection refused".to_string())
    );
}

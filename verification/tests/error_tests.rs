use aegisnode::error::AppError;
use serde_json::Value;

fn expected_body(error_type: &str, message: &str) -> String {
    let mut inner = serde_json::Map::new();
    inner.insert("type".to_string(), Value::String(error_type.to_string()));
    inner.insert("message".to_string(), Value::String(message.to_string()));
    let mut outer = serde_json::Map::new();
    outer.insert("error".to_string(), Value::Object(inner));
    Value::Object(outer).to_string()
}

#[test]
fn each_error_has_its_status_and_type() {
    let cases = vec![
        (AppError::Destination("a".to_string()), 502, "destination_error"),
        (AppError::Internal("b".to_string()), 500, "internal_error"),
        (AppError::Parsing("c".to_string()), 400, "parsing_error"),
        (AppError::Config("d".to_string()), 503, "config_error"),
    ];
    for (e, status, t) in cases {
        let r = e.to_response();
        assert_eq!(r.status, status);
        assert_eq!(r.content_type, "application/json");
        let m = match &e {
            AppError::Destination(m) | AppError::Internal(m) | AppError::Parsing(m) | AppError::Config(m) => m.clone(),
        };
        assert_eq!(r.body, expected_body(t, &m));
    }
}

#[test]
fn error_body_layout() {
    let r = AppError::Config("No module found for destination: x".to_string()).to_response();
    assert_eq!(r.body, r#"{"error":{"message":"No module found for destination: x","type":"config_error"}}"#);
}

#[test]
fn error_body_escapes_like_serde_json() {
    let nasty = "quote \" back \\ nl \n tab \t cr \r bs \u{8} ff \u{c} ctl \u{1} del \u{7f} é /";
    let r = AppError::Internal(nasty.to_string()).to_response();
    assert_eq!(r.body, expected_body("internal_error", nasty));
    assert!(r.body.contains(r#"\u0001"#));
}

#[test]
fn descriptions_follow_the_error_kind() {
    assert_eq!(AppError::Destination("x".to_string()).description(), "Destination Error: x");
    assert_eq!(AppError::Internal("x".to_string()).description(), "Internal Server Error: x");
    assert_eq!(AppError::Parsing("x".to_string()).description(), "Parsing Error: x");
    assert_eq!(AppError::Config("x".to_string()).description(), "Configuration Error: x");
}

#[test]
fn error_body_parses_back_to_its_message() {
    let messages = ["plain", "quote \" and \\ back", "lines\n\r\ttabs", "ctl \u{1}\u{1f} del \u{7f}", "ünïcødé ✓ 🎉"];
    for m in messages {
        for e in [
            AppError::Destination(m.to_string()),
            AppError::Internal(m.to_string()),
            AppError::Parsing(m.to_string()),
            AppError::Config(m.to_string()),
        ] {
            let body = e.to_response().body;
            let v: Value = serde_json::from_str(&body).unwrap();
            let top = v.as_object().unwrap();
            assert_eq!(top.len(), 1);
            let inner = top["error"].as_object().unwrap();
            assert_eq!(inner.len(), 2);
            assert_eq!(inner["message"].as_str(), Some(m));
            assert!(inner["type"].is_string());
        }
    }
}

//! Reading connection settings out of chat replies.

use gut_loader::llm::{
    chat_endpoint, chat_error_message, config_problem, extract_json_object, payload_candidates,
    LlmConfigError, ParsedDbInfo,
};
use gut_loader::models::LlmConfig;
use serde_json::Value;

/// Decodes a reply as the client does: the first candidate that is a JSON object.
fn parse_payload(raw: &str) -> Option<Value> {
    for c in payload_candidates(raw) {
        if let Ok(v) = serde_json::from_str::<Value>(&c) {
            if v.is_object() {
                return Some(v);
            }
        }
    }
    None
}

fn config(url: &str, key: &str, model: &str) -> LlmConfig {
    LlmConfig { api_url: url.to_string(), api_key: key.to_string(), model: model.to_string() }
}

#[test]
fn parse_pure_json_response() {
    let raw = r#"{
        "db_type": "mysql",
        "host": "10.0.0.1",
        "port": 3306,
        "database": "orders",
        "username": "root",
        "password": "secret",
        "schema": null,
        "confidence": 0.92
    }"#;
    let info = parse_payload(raw).expect("should parse");
    assert_eq!(info["db_type"], "mysql");
    assert_eq!(info["host"], "10.0.0.1");
    assert_eq!(info["port"], 3306);
    assert_eq!(info["database"], "orders");
    assert_eq!(info["username"], "root");
    assert_eq!(info["password"], "secret");
    assert!(info["schema"].is_null());
    assert!((info["confidence"].as_f64().unwrap() - 0.92).abs() < f64::EPSILON);
}

#[test]
fn parse_json_wrapped_in_markdown_fence() {
    let raw = "```json\n{\"db_type\":\"postgresql\",\"port\":5432,\"confidence\":0.8}\n```";
    let info = parse_payload(raw).expect("should parse from fenced block");
    assert_eq!(info["db_type"], "postgresql");
    assert_eq!(info["port"], 5432);
    assert!((info["confidence"].as_f64().unwrap() - 0.8).abs() < f64::EPSILON);
}

#[test]
fn parse_json_with_leading_explanation() {
    let raw = "解析结果如下：\n{\"db_type\":\"oracle\",\"host\":\"db.example.com\",\"port\":1521,\"confidence\":0.7}\n额外说明。";
    let info = parse_payload(raw).expect("should extract embedded json");
    assert_eq!(info["db_type"], "oracle");
    assert_eq!(info["host"], "db.example.com");
    assert_eq!(info["port"], 1521);
}

#[test]
fn parse_invalid_response_returns_none() {
    assert!(parse_payload("完全无法识别的纯文本响应。").is_none());
}

#[test]
fn parse_partial_response_yields_defaults() {
    let info = parse_payload(r#"{"db_type":"dameng","confidence":0.5}"#).expect("should parse");
    assert_eq!(info["db_type"], "dameng");
    assert!(info.get("host").is_none());
    assert!(info.get("port").is_none());
    assert_eq!(info["confidence"].as_f64().unwrap(), 0.5);
}

#[test]
fn extract_json_handles_nested_objects() {
    let raw = "前言 {\"a\":{\"b\":1},\"c\":\"}\"} 收尾";
    let snippet = extract_json_object(raw).expect("should extract");
    assert_eq!(snippet, "{\"a\":{\"b\":1},\"c\":\"}\"}");
}

#[test]
fn extract_json_edge_cases() {
    assert_eq!(extract_json_object("no braces"), None);
    assert_eq!(extract_json_object("{\"open\": 1"), None);
    assert_eq!(extract_json_object("{\"k\":\"\\\"}\"} tail").unwrap(), "{\"k\":\"\\\"}\"}");
    assert_eq!(extract_json_object("} {\"a\":1}").unwrap(), "{\"a\":1}");
    assert_eq!(extract_json_object("}}{\"a\":{\"b\":2}}}").unwrap(), "{\"a\":{\"b\":2}}");
    assert_eq!(extract_json_object("x{}y{\"a\":1}").unwrap(), "{}");
}

#[test]
fn payload_candidates_order() {
    assert_eq!(payload_candidates("  {\"a\":1}  "), vec!["{\"a\":1}".to_string(), "{\"a\":1}".to_string()]);
    assert_eq!(payload_candidates(" plain "), vec!["plain".to_string()]);
}

#[test]
fn parsed_to_database_config_uses_defaults() {
    let cfg = ParsedDbInfo::default().to_database_config();
    assert_eq!(cfg.db_type, "mysql");
    assert_eq!(cfg.host, "localhost");
    assert_eq!(cfg.port, 3306);
    assert_eq!(cfg.database, "");
    assert_eq!(cfg.username, "");
    assert_eq!(cfg.password, "");
    assert!(cfg.schema.is_none());
}

#[test]
fn parsed_to_database_config_preserves_provided_values() {
    let info = ParsedDbInfo {
        db_type: Some("postgresql".to_string()),
        host: Some("192.168.1.10".to_string()),
        port: Some(5432),
        database: Some("app".to_string()),
        username: Some("alice".to_string()),
        password: Some("p@ss".to_string()),
        schema: Some("public".to_string()),
    };
    let cfg = info.to_database_config();
    assert_eq!(cfg.db_type, "postgresql");
    assert_eq!(cfg.host, "192.168.1.10");
    assert_eq!(cfg.port, 5432);
    assert_eq!(cfg.database, "app");
    assert_eq!(cfg.username, "alice");
    assert_eq!(cfg.password, "p@ss");
    assert_eq!(cfg.schema.as_deref(), Some("public"));
}

#[test]
fn endpoint_strips_trailing_slash() {
    assert_eq!(chat_endpoint("https://api.openai.com/v1/"), "https://api.openai.com/v1/chat/completions");
    assert_eq!(chat_endpoint("https://api.openai.com/v1//"), "https://api.openai.com/v1/chat/completions");
}

#[test]
fn endpoint_keeps_path_without_trailing_slash() {
    assert_eq!(chat_endpoint("https://api.deepseek.com/v1"), "https://api.deepseek.com/v1/chat/completions");
}

#[test]
fn validate_config_rejects_empty_api_url() {
    assert_eq!(config_problem(&config("", "sk", "m")), Some(LlmConfigError::EmptyApiUrl));
    assert_eq!(LlmConfigError::EmptyApiUrl.message(), "api_url 不能为空");
}

#[test]
fn validate_config_rejects_empty_api_key() {
    assert_eq!(
        config_problem(&config("https://api.openai.com/v1", "   ", "m")),
        Some(LlmConfigError::EmptyApiKey)
    );
}

#[test]
fn config_problem_model_and_ok() {
    assert_eq!(config_problem(&config("u", "k", " ")), Some(LlmConfigError::EmptyModel));
    assert_eq!(config_problem(&config("u", "k", "m")), None);
}

#[test]
fn chat_errors() {
    assert_eq!(chat_error_message(401, "401 Unauthorized", "no"), "LLM 认证失败 (HTTP 401 Unauthorized): no");
    assert_eq!(chat_error_message(500, "500 Internal Server Error", "x"), "LLM 接口异常 (HTTP 500 Internal Server Error): x");
}

//! The pure executor pipeline: method validation, header selection and
//! body construction.
use reqstudio::http::{enabled_fields, plan_body, prepare_headers, validate_method, BodyPlan};
use reqstudio::model::KeyValue;
use reqstudio::text::extract_path;

fn kv(key: &str, value: &str, enabled: bool) -> KeyValue {
    KeyValue { key: key.to_string(), value: value.to_string(), enabled, description: None }
}

#[test]
fn supported_methods_are_canonicalized() {
    for (input, canonical) in [
        ("GET", "GET"),
        ("get", "GET"),
        ("Post", "POST"),
        ("put", "PUT"),
        ("PATCH", "PATCH"),
        ("delete", "DELETE"),
        ("head", "HEAD"),
        ("options", "OPTIONS"),
    ] {
        assert_eq!(validate_method(input).unwrap(), canonical);
    }
}

#[test]
fn unsupported_method_fails_with_message() {
    let err = validate_method("TRACE").unwrap_err();
    assert_eq!(err, "Unsupported method: TRACE");
    assert!(validate_method("").is_err());
    assert!(validate_method("GETT").is_err());
}

#[test]
fn disabled_and_malformed_headers_are_dropped() {
    let headers = vec![
        kv("Content-Type", "application/json", true),
        kv("X-Disabled", "value", false),
        kv("Bad Name", "value", true),
        kv("X-Bad-Value", "line\nbreak", true),
        kv("", "empty-name", true),
        kv("X-Ok", "fine value", true),
    ];
    let kept = prepare_headers(&headers);
    let names: Vec<&str> = kept.iter().map(|h| h.key.as_str()).collect();
    assert_eq!(names, vec!["Content-Type", "X-Ok"]);
}

#[test]
fn json_body_injects_content_type() {
    match plan_body("json", Some("{\"x\":1}".to_string())) {
        BodyPlan::Payload { content_type, content } => {
            assert_eq!(content_type.as_deref(), Some("application/json"));
            assert_eq!(content, "{\"x\":1}");
        }
        _ => panic!("json body must be a payload"),
    }
}

#[test]
fn raw_body_has_no_content_type_override() {
    match plan_body("raw", Some("hello".to_string())) {
        BodyPlan::Payload { content_type, content } => {
            assert!(content_type.is_none());
            assert_eq!(content, "hello");
        }
        _ => panic!("raw body must be a payload"),
    }
}

#[test]
fn form_urlencoded_body_injects_its_content_type() {
    match plan_body("x-www-form-urlencoded", Some("a=1&b=2".to_string())) {
        BodyPlan::Payload { content_type, content } => {
            assert_eq!(content_type.as_deref(), Some("application/x-www-form-urlencoded"));
            assert_eq!(content, "a=1&b=2");
        }
        _ => panic!("urlencoded body must be a payload"),
    }
}

#[test]
fn form_data_body_is_deferred_to_multipart() {
    match plan_body("form-data", Some("[{\"key\":\"a\"}]".to_string())) {
        BodyPlan::Multipart { raw } => assert_eq!(raw, "[{\"key\":\"a\"}]"),
        _ => panic!("form-data body must be multipart"),
    }
}

#[test]
fn empty_or_unknown_bodies_send_nothing() {
    assert!(matches!(plan_body("json", None), BodyPlan::Empty));
    assert!(matches!(plan_body("json", Some(String::new())), BodyPlan::Empty));
    assert!(matches!(plan_body("none", Some("x".to_string())), BodyPlan::Empty));
    assert!(matches!(plan_body("", Some("x".to_string())), BodyPlan::Empty));
}

#[test]
fn multipart_uses_enabled_fields_only() {
    let fields = vec![kv("a", "1", true), kv("b", "2", false), kv("c", "3", true)];
    let kept = enabled_fields(&fields);
    let pairs: Vec<(&str, &str)> =
        kept.iter().map(|f| (f.key.as_str(), f.value.as_str())).collect();
    assert_eq!(pairs, vec![("a", "1"), ("c", "3")]);
}

#[test]
fn extract_path_takes_the_suffix_from_the_first_slash_after_the_scheme() {
    assert_eq!(extract_path("https://api.example.com/v1/users"), "/v1/users");
    assert_eq!(extract_path("http://host/a/b?q=1"), "/a/b?q=1");
    assert_eq!(extract_path("ftp://host/"), "/");
}

#[test]
fn extract_path_returns_the_url_unchanged_without_scheme_or_path() {
    assert_eq!(extract_path("https://example.com"), "https://example.com");
    assert_eq!(extract_path("just-a-name"), "just-a-name");
    assert_eq!(extract_path(""), "");
    assert_eq!(extract_path("a/b/c"), "a/b/c");
}

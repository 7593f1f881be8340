use kaizen::event::Json;
use kaizen::event_index::{
    is_valid_slug, paths_from_event_payload, rules_from_event_json, skills_from_event_json,
};

fn text(s: &str) -> Json {
    Json::Object(vec![("text".to_string(), Json::Str(s.to_string()))])
}

#[test]
fn paths_from_tool_use_input() {
    let v = Json::Object(vec![(
        "input".to_string(),
        Json::Object(vec![("path".to_string(), Json::Str("src/main.rs".to_string()))]),
    )]);
    let p = paths_from_event_payload(&v);
    assert_eq!(p, vec!["src/main.rs".to_string()]);
}

#[test]
fn skills_from_cursor_path_string() {
    let v = text("read /.cursor/skills/foo/SKILL.md");
    let s = skills_from_event_json(&v);
    assert_eq!(s, vec!["foo".to_string()]);
}

#[test]
fn rules_from_cursor_rules_path() {
    let v = Json::Object(vec![(
        "path".to_string(),
        Json::Str(".cursor/rules/agent-parity.mdc".to_string()),
    )]);
    let r = rules_from_event_json(&v);
    assert_eq!(r, vec!["agent-parity".to_string()]);
}

#[test]
fn rules_case_insensitive_mdc_suffix() {
    let v = text("See .cursor/rules/Foo.MDC for details");
    let r = rules_from_event_json(&v);
    assert_eq!(r, vec!["Foo".to_string()]);
}

#[test]
fn skills_regex_rejects_noise_tokens() {
    let v = text(
        "See .cursor/skills/**, .cursor/skills/{}, .cursor/skills/`, .cursor/skills/.foo and .cursor/skills/valid-slug for details",
    );
    let s = skills_from_event_json(&v);
    assert_eq!(s, vec!["valid-slug".to_string()]);
}

#[test]
fn is_valid_slug_filters_garbage() {
    assert!(is_valid_slug("kaizen-retro"));
    assert!(is_valid_slug("api_and_interface_design"));
    assert!(is_valid_slug("Foo"));
    assert!(!is_valid_slug(""));
    assert!(!is_valid_slug("`"));
    assert!(!is_valid_slug("{}"));
    assert!(!is_valid_slug("\\n"));
    assert!(!is_valid_slug(".foo"));
    assert!(!is_valid_slug("_leading"));
    assert!(!is_valid_slug("-leading"));
}

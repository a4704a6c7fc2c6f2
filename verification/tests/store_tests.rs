use ringsnap::{
    UrlRule, default_enabled, default_icon_source_index, get_default_rules, load_rules,
    parse_rules, save_rules,
};

fn sample_rules() -> Vec<UrlRule> {
    vec![
        UrlRule {
            name: "GitHub".to_string(),
            pattern: "github\\.com/([^/]+)/([^/]+)".to_string(),
            url: "https://github.com/{1}/{2}".to_string(),
            icon: "github.com".to_string(),
            enabled: true,
            icon_source_index: 0,
        },
        UrlRule {
            name: "Disabled \"quoted\"\nname".to_string(),
            pattern: ".*".to_string(),
            url: "https://x.example/?q={text}".to_string(),
            icon: "x.example".to_string(),
            enabled: false,
            icon_source_index: 3,
        },
    ]
}

fn assert_rules_eq(a: &[UrlRule], b: &[UrlRule]) {
    assert_eq!(a.len(), b.len());
    for (x, y) in a.iter().zip(b.iter()) {
        assert_eq!(x.name, y.name);
        assert_eq!(x.pattern, y.pattern);
        assert_eq!(x.url, y.url);
        assert_eq!(x.icon, y.icon);
        assert_eq!(x.enabled, y.enabled);
        assert_eq!(x.icon_source_index, y.icon_source_index);
    }
}

#[test]
fn save_then_parse_round_trips() {
    let rules = sample_rules();
    let text = save_rules(&rules);
    let cfg = parse_rules(&text).expect("serialized form must parse");
    assert_rules_eq(&cfg.rules, &rules);
}

#[test]
fn save_empty_list_round_trips() {
    let rules: Vec<UrlRule> = Vec::new();
    let text = save_rules(&rules);
    assert_eq!(text, "{\"rules\":[]}");
    let cfg = parse_rules(&text).expect("empty list must parse");
    assert!(cfg.rules.is_empty());
}

#[test]
fn missing_optional_fields_take_defaults() {
    let text = "{\"rules\":[{\"name\":\"a\",\"pattern\":\"b\",\"url\":\"c\",\"icon\":\"d\"}]}";
    let cfg = parse_rules(text).expect("record without optional fields must parse");
    assert_eq!(cfg.rules.len(), 1);
    assert_eq!(cfg.rules[0].enabled, default_enabled());
    assert_eq!(cfg.rules[0].icon_source_index, default_icon_source_index());
    assert_eq!(cfg.rules[0].enabled, true);
    assert_eq!(cfg.rules[0].icon_source_index, 0);
}

#[test]
fn parser_accepts_whitespace_and_field_order() {
    let text = "{\n  \"rules\": [\n    {\n      \"enabled\": false,\n      \"iconSourceIndex\": 2,\n      \"name\": \"n\",\n      \"pattern\": \"p\",\n      \"url\": \"u\",\n      \"icon\": \"i\"\n    }\n  ]\n}\n";
    let cfg = parse_rules(text).expect("pretty-printed form must parse");
    assert_eq!(cfg.rules.len(), 1);
    assert_eq!(cfg.rules[0].name, "n");
    assert_eq!(cfg.rules[0].enabled, false);
    assert_eq!(cfg.rules[0].icon_source_index, 2);
}

#[test]
fn parser_handles_escapes() {
    let text = "{\"rules\":[{\"name\":\"a\\\"b\\\\c\\n\\t\\r\\/d\",\"pattern\":\"p\",\"url\":\"u\",\"icon\":\"i\"}]}";
    let cfg = parse_rules(text).expect("escapes must parse");
    assert_eq!(cfg.rules[0].name, "a\"b\\c\n\t\r/d");
}

#[test]
fn parse_errors() {
    assert!(parse_rules("").is_err());
    assert!(parse_rules("not json").is_err());
    assert!(parse_rules("{\"rules\":}").is_err());
    assert!(parse_rules("{\"other\":[]}").is_err());
    // a required field is missing
    assert!(parse_rules("{\"rules\":[{\"name\":\"a\",\"pattern\":\"b\",\"url\":\"c\"}]}").is_err());
    // a repeated field
    assert!(parse_rules(
        "{\"rules\":[{\"name\":\"a\",\"name\":\"x\",\"pattern\":\"b\",\"url\":\"c\",\"icon\":\"d\"}]}"
    )
    .is_err());
    // an unknown field
    assert!(parse_rules(
        "{\"rules\":[{\"name\":\"a\",\"pattern\":\"b\",\"url\":\"c\",\"icon\":\"d\",\"extra\":1}]}"
    )
    .is_err());
    // the number does not fit the field
    assert!(parse_rules(
        "{\"rules\":[{\"name\":\"a\",\"pattern\":\"b\",\"url\":\"c\",\"icon\":\"d\",\"iconSourceIndex\":4294967296}]}"
    )
    .is_err());
    // trailing text after the document
    assert!(parse_rules("{\"rules\":[]}x").is_err());
}

#[test]
fn icon_source_index_boundary_round_trips() {
    let mut rules = sample_rules();
    rules[0].icon_source_index = 4294967295;
    let text = save_rules(&rules);
    let cfg = parse_rules(&text).expect("boundary value must parse");
    assert_eq!(cfg.rules[0].icon_source_index, 4294967295);
}

#[test]
fn load_falls_back_to_defaults() {
    let from_nothing = load_rules(None);
    let defaults = get_default_rules();
    assert_rules_eq(&from_nothing, &defaults);
    let from_garbage = load_rules(Some("{broken"));
    assert_rules_eq(&from_garbage, &defaults);
}

#[test]
fn load_uses_persisted_text_when_valid() {
    let rules = sample_rules();
    let text = save_rules(&rules);
    let loaded = load_rules(Some(&text));
    assert_rules_eq(&loaded, &rules);
}

#[test]
fn default_rules_shape() {
    let defaults = get_default_rules();
    assert_eq!(defaults.len(), 8);
    assert_eq!(defaults[0].name, "GitHub Repository");
    assert_eq!(defaults[0].pattern, "github\\.com\\/([^\\/]+)\\/([^\\/]+)");
    assert_eq!(defaults[0].url, "https://github.com/{1}/{2}");
    for r in defaults.iter() {
        assert!(r.enabled);
        assert_eq!(r.icon_source_index, 0);
    }
    // catch-all rules stand after the specific ones
    assert_eq!(defaults[7].name, "Stack Overflow");
    assert_eq!(defaults[7].pattern, ".*");
}

#[test]
fn saved_form_is_valid_json_for_other_readers() {
    let rules = sample_rules();
    let text = save_rules(&rules);
    let value: serde_json::Value = serde_json::from_str(&text).expect("output must be JSON");
    let arr = value.get("rules").and_then(|v| v.as_array()).expect("a rules array");
    assert_eq!(arr.len(), 2);
    assert_eq!(arr[0].get("name").and_then(|v| v.as_str()), Some("GitHub"));
    assert_eq!(
        arr[1].get("iconSourceIndex").and_then(|v| v.as_u64()),
        Some(3)
    );
    assert_eq!(arr[1].get("enabled").and_then(|v| v.as_bool()), Some(false));
}

#[test]
fn parser_reads_pretty_printed_json() {
    let rules = sample_rules();
    let compact = save_rules(&rules);
    let value: serde_json::Value = serde_json::from_str(&compact).expect("valid JSON");
    let pretty = serde_json::to_string_pretty(&value).expect("pretty printing succeeds");
    assert_ne!(compact, pretty);
    let cfg = parse_rules(&pretty).expect("pretty-printed form must parse");
    assert_rules_eq(&cfg.rules, &rules);
}

use ringsnap::{MatchResult, UrlRule, build_output, match_rules, process_selected_text, transform};

fn rule(name: &str, pattern: &str, url: &str) -> UrlRule {
    UrlRule {
        name: name.to_string(),
        pattern: pattern.to_string(),
        url: url.to_string(),
        icon: "example.com".to_string(),
        enabled: true,
        icon_source_index: 0,
    }
}

fn github_google() -> Vec<UrlRule> {
    vec![
        rule(
            "GitHub",
            "github\\.com/([^/]+)/([^/]+)",
            "https://github.com/{1}/{2}",
        ),
        rule("Google", ".*", "https://www.google.com/search?q={text}"),
    ]
}

#[test]
fn scenario_github_capture_groups() {
    let rules = github_google();
    let text = process_selected_text("  check out github.com/foo/bar ");
    assert_eq!(text, "check out github.com/foo/bar");
    match match_rules(&rules, &text) {
        MatchResult::Matched { rule, output } => {
            assert_eq!(rule.name, "GitHub");
            assert_eq!(output, "https://github.com/foo/bar");
        }
        MatchResult::NoMatch => panic!("expected a match"),
    }
}

#[test]
fn capture_groups_are_greedy() {
    // `[^/]+` does not stop at spaces: the standard engine captures greedily
    let rules = github_google();
    match match_rules(&rules, "check out github.com/foo/bar today") {
        MatchResult::Matched { rule, output } => {
            assert_eq!(rule.name, "GitHub");
            assert_eq!(output, "https://github.com/foo/bar today");
        }
        MatchResult::NoMatch => panic!("expected a match"),
    }
}

#[test]
fn scenario_catch_all_text_substitution() {
    let rules = github_google();
    match match_rules(&rules, "random phrase") {
        MatchResult::Matched { rule, output } => {
            assert_eq!(rule.name, "Google");
            assert_eq!(output, "https://www.google.com/search?q=random phrase");
        }
        MatchResult::NoMatch => panic!("expected a match"),
    }
}

#[test]
fn scenario_invalid_pattern_is_skipped() {
    let mut rules = vec![rule("Broken", "(", "https://broken.example/{1}")];
    rules.extend(github_google());
    match match_rules(&rules, "github.com/a/b") {
        MatchResult::Matched { rule, output } => {
            assert_eq!(rule.name, "GitHub");
            assert_eq!(output, "https://github.com/a/b");
        }
        MatchResult::NoMatch => panic!("invalid pattern must not abort the search"),
    }
}

#[test]
fn scenario_empty_rule_set_is_no_match() {
    let rules: Vec<UrlRule> = Vec::new();
    assert!(matches!(
        match_rules(&rules, "anything at all"),
        MatchResult::NoMatch
    ));
}

#[test]
fn disabled_rule_is_skipped_and_reenabling_restores() {
    let mut rules = github_google();
    rules[0].enabled = false;
    match match_rules(&rules, "github.com/foo/bar") {
        MatchResult::Matched { rule, .. } => assert_eq!(rule.name, "Google"),
        MatchResult::NoMatch => panic!("expected the catch-all to match"),
    }
    rules[0].enabled = true;
    match match_rules(&rules, "github.com/foo/bar") {
        MatchResult::Matched { rule, output } => {
            assert_eq!(rule.name, "GitHub");
            assert_eq!(output, "https://github.com/foo/bar");
        }
        MatchResult::NoMatch => panic!("expected a match"),
    }
}

#[test]
fn first_match_wins_over_later_rules() {
    let rules = vec![
        rule("CatchAll", ".*", "https://first.example/{text}"),
        rule("Specific", "github\\.com", "https://second.example/"),
    ];
    match match_rules(&rules, "github.com/x/y") {
        MatchResult::Matched { rule, .. } => assert_eq!(rule.name, "CatchAll"),
        MatchResult::NoMatch => panic!("expected a match"),
    }
}

#[test]
fn no_enabled_rule_matches_gives_no_match() {
    let rules = vec![rule("Digits", "^[0-9]+$", "https://n.example/{0}")];
    assert!(matches!(
        match_rules(&rules, "letters only"),
        MatchResult::NoMatch
    ));
}

#[test]
fn template_tokens() {
    let groups = vec![
        Some("whole".to_string()),
        Some("one".to_string()),
        None,
    ];
    // {text} is the full text, not the matched substring
    assert_eq!(build_output("q={text}", &groups, "full text"), "q=full text");
    // a group that did not participate becomes empty
    assert_eq!(build_output("a{2}b", &groups, "t"), "ab");
    // a group past the end becomes empty
    assert_eq!(build_output("a{9}b", &groups, "t"), "ab");
    // {0} and other brace tokens are copied verbatim
    assert_eq!(build_output("a{0}b", &groups, "t"), "a{0}b");
    assert_eq!(build_output("a{foo}b", &groups, "t"), "a{foo}b");
    assert_eq!(build_output("open{ brace", &groups, "t"), "open{ brace");
    // a normal capture reference
    assert_eq!(build_output("x{1}y", &groups, "t"), "xoney");
    // literal text around tokens is kept as-is
    assert_eq!(build_output("{1}-{1}", &groups, "t"), "one-one");
}

#[test]
fn transform_normalizes_then_matches() {
    let rules = github_google();
    match transform("  check out\n github.com/foo/bar ", &rules) {
        MatchResult::Matched { rule, output } => {
            assert_eq!(rule.name, "GitHub");
            assert_eq!(output, "https://github.com/foo/bar");
        }
        MatchResult::NoMatch => panic!("expected a match"),
    }
}

#[test]
fn transform_substitutes_normalized_text() {
    let rules = vec![rule("Search", ".*", "https://s.example/?q={text}")];
    match transform(" two   words ", &rules) {
        MatchResult::Matched { output, .. } => {
            assert_eq!(output, "https://s.example/?q=two words");
        }
        MatchResult::NoMatch => panic!("expected a match"),
    }
}

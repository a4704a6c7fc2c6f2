//! Rule data model: a single pattern-to-URL-template mapping with metadata,
//! an ordered rule list, and the built-in default rule set.

use vstd::prelude::*;

verus! {

/// Mathematical model of a rule: the field values as plain sequences.
pub struct RuleV {
    pub name: Seq<char>,
    pub pattern: Seq<char>,
    pub url: Seq<char>,
    pub icon: Seq<char>,
    pub enabled: bool,
    pub icon_source_index: u32,
}

/// One text-to-URL rule. Its position in the containing ordered list is its
/// matching priority; there is no separate priority field.
pub struct UrlRule {
    /// Human-readable label.
    pub name: String,
    /// Regular-expression source string; may be invalid, validity is only
    /// checked when the rule is tried during matching.
    pub pattern: String,
    /// URL template with `{1}`, `{2}`, ... capture placeholders and `{text}`
    /// for the whole normalized input.
    pub url: String,
    /// Opaque icon identifier; not interpreted by the engine.
    pub icon: String,
    /// Disabled rules keep their stored position but are never matched.
    pub enabled: bool,
    /// Selects among icon-resolution strategies; opaque to the engine.
    pub icon_source_index: u32,
}

impl View for UrlRule {
    type V = RuleV;

    open spec fn view(&self) -> RuleV {
        RuleV {
            name: self.name@,
            pattern: self.pattern@,
            url: self.url@,
            icon: self.icon@,
            enabled: self.enabled,
            icon_source_index: self.icon_source_index,
        }
    }
}

impl Clone for UrlRule {
    fn clone(&self) -> (r: UrlRule)
        ensures
            r == *self,
    {
        UrlRule {
            name: self.name.clone(),
            pattern: self.pattern.clone(),
            url: self.url.clone(),
            icon: self.icon.clone(),
            enabled: self.enabled,
            icon_source_index: self.icon_source_index,
        }
    }
}

/// The models of an ordered rule list.
pub open spec fn rules_view(rs: Seq<UrlRule>) -> Seq<RuleV> {
    rs.map_values(|r: UrlRule| r@)
}

/// The persisted record: a single ordered list of rules under a `rules` key.
pub struct RulesConfig {
    pub rules: Vec<UrlRule>,
}

impl View for RulesConfig {
    type V = Seq<RuleV>;

    open spec fn view(&self) -> Seq<RuleV> {
        rules_view(self.rules@)
    }
}

/// Default value of the `enabled` field when a persisted record omits it.
pub fn default_enabled() -> (r: bool)
    ensures
        r == true,
{
    true
}

/// Default value of the `iconSourceIndex` field when a persisted record
/// omits it.
pub fn default_icon_source_index() -> (r: u32)
    ensures
        r == 0,
{
    0
}

/// Model of one default rule, always enabled with icon strategy 0.
pub open spec fn default_rule_v(
    name: Seq<char>,
    pattern: Seq<char>,
    url: Seq<char>,
    icon: Seq<char>,
) -> RuleV {
    RuleV { name, pattern, url, icon, enabled: true, icon_source_index: 0 }
}

/// The built-in seed rule list: code-hosting and package-registry patterns
/// first, catch-all search templates last.
pub open spec fn default_rules() -> Seq<RuleV> {
    seq![
        default_rule_v(
            "GitHub Repository"@,
            "github\\.com\\/([^\\/]+)\\/([^\\/]+)"@,
            "https://github.com/{1}/{2}"@,
            "github.com"@,
        ),
        default_rule_v(
            "GitLab Repository"@,
            "gitlab\\.com\\/([^\\/]+)\\/([^\\/]+)"@,
            "https://gitlab.com/{1}/{2}"@,
            "gitlab.com"@,
        ),
        default_rule_v(
            "NPM Package"@,
            "npmjs\\.com\\/package\\/([^\\/]+)"@,
            "https://www.npmjs.com/package/{1}"@,
            "npmjs.com"@,
        ),
        default_rule_v(
            "163 Video"@,
            ".*"@,
            "https://www.163.com/v/video/{text}.html"@,
            "163.com"@,
        ),
        default_rule_v(
            "Google Search"@,
            ".*"@,
            "https://www.google.com/search?q={text}"@,
            "google.com"@,
        ),
        default_rule_v("Baidu Search"@, ".*"@, "https://www.baidu.com/s?wd={text}"@, "baidu.com"@),
        default_rule_v(
            "Bing Search"@,
            ".*"@,
            "https://www.bing.com/search?q={text}"@,
            "bing.com"@,
        ),
        default_rule_v(
            "Stack Overflow"@,
            ".*"@,
            "https://stackoverflow.com/search?q={text}"@,
            "stackoverflow.com"@,
        ),
    ]
}

fn make_rule(name: &str, pattern: &str, url: &str, icon: &str) -> (r: UrlRule)
    ensures
        r@ == default_rule_v(name@, pattern@, url@, icon@),
{
    UrlRule {
        name: String::from_str(name),
        pattern: String::from_str(pattern),
        url: String::from_str(url),
        icon: String::from_str(icon),
        enabled: true,
        icon_source_index: 0,
    }
}

/// The built-in default rule set, used when no persisted rule file exists
/// or the persisted form fails to parse.
pub fn get_default_rules() -> (r: Vec<UrlRule>)
    ensures
        rules_view(r@) == default_rules(),
{
    let mut v: Vec<UrlRule> = Vec::new();
    v.push(
        make_rule(
            "GitHub Repository",
            "github\\.com\\/([^\\/]+)\\/([^\\/]+)",
            "https://github.com/{1}/{2}",
            "github.com",
        ),
    );
    v.push(
        make_rule(
            "GitLab Repository",
            "gitlab\\.com\\/([^\\/]+)\\/([^\\/]+)",
            "https://gitlab.com/{1}/{2}",
            "gitlab.com",
        ),
    );
    v.push(
        make_rule(
            "NPM Package",
            "npmjs\\.com\\/package\\/([^\\/]+)",
            "https://www.npmjs.com/package/{1}",
            "npmjs.com",
        ),
    );
    v.push(make_rule("163 Video", ".*", "https://www.163.com/v/video/{text}.html", "163.com"));
    v.push(make_rule("Google Search", ".*", "https://www.google.com/search?q={text}", "google.com"));
    v.push(make_rule("Baidu Search", ".*", "https://www.baidu.com/s?wd={text}", "baidu.com"));
    v.push(make_rule("Bing Search", ".*", "https://www.bing.com/search?q={text}", "bing.com"));
    v.push(
        make_rule(
            "Stack Overflow",
            ".*",
            "https://stackoverflow.com/search?q={text}",
            "stackoverflow.com",
        ),
    );
    proof {
        assert(rules_view(v@) =~= default_rules());
    }
    v
}

} // verus!

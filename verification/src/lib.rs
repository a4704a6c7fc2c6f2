//! Rule-based text-to-URL transformation engine.
//!
//! Captured text is normalized to a single whitespace-collapsed line, then
//! matched against an ordered list of pattern rules; the first enabled rule
//! whose pattern matches produces an output URL by substituting capture
//! groups and the full text into the rule's URL template. Rule lists are
//! persisted as a JSON document; a missing or malformed document falls back
//! to the built-in default rules.

pub mod chars;
pub mod engine;
pub mod rules;
pub mod store;
pub mod text;

pub use engine::{MatchResult, build_output, match_rules, transform};
pub use rules::{RulesConfig, UrlRule, default_enabled, default_icon_source_index, get_default_rules};
pub use store::{ParseError, load_rules, parse_rules, save_rules};
pub use text::process_selected_text;

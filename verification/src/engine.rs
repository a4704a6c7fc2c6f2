//! Match engine: given normalized text and an ordered rule list, finds the
//! first enabled rule whose pattern matches and produces the output URL by
//! substituting capture groups and the whole text into the rule's template.

use vstd::prelude::*;

use crate::chars::{chars_of, push_char};
use crate::rules::{RuleV, UrlRule, rules_view};

verus! {

/// Whether the regex engine accepts a pattern string. Compilation succeeds
/// or fails on the pattern alone.
pub uninterp spec fn regex_compiles(pattern: Seq<char>) -> bool;

/// The leftmost unanchored match of a compiled pattern against a text:
/// `None` when the pattern does not match, otherwise one entry per capture
/// group (group 0 first, the whole match), `None` for groups that did not
/// participate. A function of the pattern and the text alone.
pub uninterp spec fn regex_groups(pattern: Seq<char>, text: Seq<char>) -> Option<
    Seq<Option<Seq<char>>>,
>;

/// The models of a captured group list.
pub open spec fn groups_view(g: Seq<Option<String>>) -> Seq<Option<Seq<char>>> {
    g.map_values(
        |o: Option<String>|
            match o {
                Option::Some(s) => Option::Some(s@),
                Option::None => Option::None,
            },
    )
}

/// Outcome of trying one rule's pattern against the text.
pub enum RegexOutcome {
    /// The pattern is not a valid regular expression.
    CompileError,
    /// The pattern compiled but does not match the text.
    NoMatch,
    /// The pattern matched; one entry per capture group, group 0 first.
    Match(Vec<Option<String>>),
}

/// Relies on `regex::Regex::new` and `regex::Regex::captures`: `new` accepts
/// or rejects the pattern string on its own; `captures` returns the leftmost
/// unanchored match as a function of pattern and haystack alone, with group
/// 0 the whole match (always participating) and one entry per group.
#[verifier::external_body]
fn try_pattern(pattern: &str, text: &str) -> (r: RegexOutcome)
    ensures
        r is CompileError <==> !regex_compiles(pattern@),
        regex_compiles(pattern@) ==> match regex_groups(pattern@, text@) {
            Option::None => r is NoMatch,
            Option::Some(gs) => {
                &&& r matches RegexOutcome::Match(g) && groups_view(g@) == gs
                &&& gs.len() >= 1
                &&& gs[0] is Some
            },
        },
{
    match regex::Regex::new(pattern) {
        Err(_) => RegexOutcome::CompileError,
        Ok(re) => match re.captures(text) {
            None => RegexOutcome::NoMatch,
            Some(caps) => RegexOutcome::Match(
                caps.iter().map(|m| m.map(|x| x.as_str().to_string())).collect(),
            ),
        },
    }
}

/// ASCII decimal digit.
pub open spec fn is_digit(c: char) -> bool {
    0x30 <= (c as u32) && (c as u32) <= 0x39
}

/// Numeric value of an ASCII digit.
pub open spec fn dval(c: char) -> nat {
    ((c as u32) - 0x30) as nat
}

pub(crate) fn is_digit_char(c: char) -> (r: bool)
    ensures
        r == is_digit(c),
{
    let u = c as u32;
    0x30 <= u && u <= 0x39
}

/// Length of the maximal digit prefix of a sequence.
pub open spec fn digit_run(s: Seq<char>) -> nat
    decreases s.len(),
{
    if s.len() > 0 && is_digit(s[0]) {
        1 + digit_run(s.drop_first())
    } else {
        0
    }
}

/// Value of a digit sequence read in base ten.
pub open spec fn digits_val(d: Seq<char>) -> nat
    decreases d.len(),
{
    if d.len() == 0 {
        0
    } else {
        digits_val(d.drop_last()) * 10 + dval(d.last())
    }
}

proof fn lemma_digit_run_is(s: Seq<char>, d: int)
    requires
        0 <= d <= s.len(),
        forall|k: int| 0 <= k < d ==> is_digit(#[trigger] s[k]),
        d == s.len() || !is_digit(s[d]),
    ensures
        digit_run(s) == d,
    decreases d,
{
    if d == 0 {
    } else {
        assert(is_digit(s[0]));
        assert(forall|k: int| 0 <= k < d - 1 ==> is_digit(#[trigger] s.drop_first()[k]));
        lemma_digit_run_is(s.drop_first(), d - 1);
    }
}

/// Text of the selected capture group: empty when the group does not exist
/// or did not participate in the match.
pub open spec fn group_text(gs: Seq<Option<Seq<char>>>, n: nat) -> Seq<char> {
    if 1 <= n && n < gs.len() && gs[n as int] is Some {
        gs[n as int]->0
    } else {
        Seq::empty()
    }
}

/// Template substitution, scanning left to right: `{text}` becomes the whole
/// normalized input, `{N}` with N at least 1 the Nth capture group's text
/// (or empty), any other brace token and all literal text are copied
/// verbatim.
pub open spec fn subst(tmpl: Seq<char>, gs: Seq<Option<Seq<char>>>, text: Seq<char>) -> Seq<char>
    decreases tmpl.len(),
{
    if tmpl.len() == 0 {
        Seq::empty()
    } else if tmpl[0] == '{' {
        let rest = tmpl.drop_first();
        if rest.len() >= 5 && rest.subrange(0, 4) == "text"@ && rest[4] == '}' {
            text + subst(tmpl.skip(6), gs, text)
        } else {
            let d = digit_run(rest);
            if d >= 1 && rest.len() > d && rest[d as int] == '}' && digits_val(
                rest.subrange(0, d as int),
            ) >= 1 {
                group_text(gs, digits_val(rest.subrange(0, d as int))) + subst(
                    tmpl.skip(d as int + 2),
                    gs,
                    text,
                )
            } else {
                seq!['{'] + subst(tmpl.drop_first(), gs, text)
            }
        }
    } else {
        seq![tmpl[0]] + subst(tmpl.drop_first(), gs, text)
    }
}

/// Builds the output URL for one matched rule: applies `subst` to the
/// rule's template, the captured groups and the whole normalized text.
pub fn build_output(template: &str, groups: &Vec<Option<String>>, text: &str) -> (r: String)
    ensures
        r@ == subst(template@, groups_view(groups@), text@),
{
    let v = chars_of(template);
    let ghost gs = groups_view(groups@);
    let mut out = String::new();
    let mut i: usize = 0;
    proof {
        assert(v@.skip(0) =~= v@);
    }
    while i < v.len()
        invariant
            i <= v.len(),
            v@ == template@,
            gs == groups_view(groups@),
            subst(template@, gs, text@) == out@ + subst(v@.skip(i as int), gs, text@),
        decreases v.len() - i,
    {
        let ghost tcur = v@.skip(i as int);
        let ghost rest = v@.skip(i as int + 1);
        proof {
            assert(tcur[0] == v@[i as int]);
            assert(tcur.drop_first() =~= rest);
        }
        let c = v[i];
        if c != '{' {
            push_char(&mut out, c);
            proof {
                assert(out@ + subst(rest, gs, text@) =~= subst(template@, gs, text@));
            }
            i = i + 1;
        } else {
            // `{text}` token?
            let is_text_tok = v.len() - i > 5 && v[i + 1] == 't' && v[i + 2] == 'e' && v[i + 3]
                == 'x' && v[i + 4] == 't' && v[i + 5] == '}';
            proof {
                reveal_strlit("text");
                if rest.len() >= 4 {
                    assert(rest.subrange(0, 4) =~= seq![
                        v@[i as int + 1],
                        v@[i as int + 2],
                        v@[i as int + 3],
                        v@[i as int + 4],
                    ]);
                    assert("text"@ =~= seq!['t', 'e', 'x', 't']);
                }
                assert(is_text_tok <==> (rest.len() >= 5 && rest.subrange(0, 4) == "text"@
                    && rest[4] == '}'));
            }
            if is_text_tok {
                out.append(text);
                proof {
                    assert(v@.skip(i as int + 6) =~= tcur.skip(6));
                    assert(out@ + subst(tcur.skip(6), gs, text@) =~= subst(
                        template@,
                        gs,
                        text@,
                    ));
                }
                i = i + 6;
            } else {
                // digit token `{N}`?
                let mut j: usize = i + 1;
                while j < v.len() && is_digit_char(v[j])
                    invariant
                        i + 1 <= j <= v.len(),
                        v@ == template@,
                        forall|k: int| i + 1 <= k < j ==> is_digit(#[trigger] v@[k]),
                    decreases v.len() - j,
                {
                    j = j + 1;
                }
                let d = j - (i + 1);
                proof {
                    assert(forall|k: int|
                        0 <= k < d ==> is_digit(#[trigger] rest[k]) && rest[k] == v@[i + 1 + k]);
                    assert(d == rest.len() || !is_digit(rest[d as int]));
                    lemma_digit_run_is(rest, d as int);
                }
                if d >= 1 && j < v.len() && v[j] == '}' {
                    // parse the group number; values beyond u64 select no group
                    let ghost dseq = rest.subrange(0, d as int);
                    let mut n: u64 = 0;
                    let mut of: bool = false;
                    let mut k: usize = i + 1;
                    proof {
                        assert(dseq.take(0) =~= Seq::<char>::empty());
                    }
                    while k < j
                        invariant
                            i + 1 <= k <= j <= v.len(),
                            v@ == template@,
                            d == j - (i + 1),
                            dseq == rest.subrange(0, d as int),
                            rest == v@.skip(i as int + 1),
                            forall|k2: int| i + 1 <= k2 < j ==> is_digit(#[trigger] v@[k2]),
                            !of ==> n == digits_val(dseq.take(k - (i + 1))),
                            of ==> digits_val(dseq.take(k - (i + 1))) > u64::MAX,
                        decreases j - k,
                    {
                        let ghost m = k - (i + 1);
                        proof {
                            assert(dseq.take(m + 1).drop_last() =~= dseq.take(m));
                            assert(dseq.take(m + 1).last() == v@[i as int + 1 + m]);
                        }
                        let c2 = v[k];
                        proof {
                            assert(is_digit(v@[k as int]));
                        }
                        let dig = (c2 as u32 - 0x30) as u64;
                        if of {
                            proof {
                                let prev = digits_val(dseq.take(m));
                                assert(digits_val(dseq.take(m + 1)) == prev * 10 + dval(c2));
                                assert(prev * 10 >= prev);
                            }
                        } else {
                            match n.checked_mul(10) {
                                Some(x) => match x.checked_add(dig) {
                                    Some(y) => {
                                        n = y;
                                    },
                                    None => {
                                        of = true;
                                    },
                                },
                                None => {
                                    of = true;
                                },
                            }
                        }
                        k = k + 1;
                    }
                    let ghost nv = digits_val(dseq);
                    proof {
                        assert(dseq.take(d as int) =~= dseq);
                    }
                    let glen: usize = groups.len();
                    if of || n >= 1 {
                        // a `{N}` token with N at least 1: substitute the group
                        let ghost out_before = out@;
                        if !of && n >= 1 && n < glen as u64 {
                            match &groups[n as usize] {
                                Some(s) => {
                                    proof {
                                        assert(gs[n as int] is Some && gs[n as int]->0 == s@);
                                    }
                                    out.append(s.as_str());
                                },
                                None => {
                                    proof {
                                        assert(gs[n as int] is None);
                                    }
                                },
                            }
                        }
                        proof {
                            if of {
                                assert(nv > u64::MAX);
                                assert(gs.len() == glen as int);
                            }
                            assert(out@ =~= out_before + group_text(gs, nv));
                            assert(v@.skip(j + 1) =~= tcur.skip(d as int + 2));
                            assert(out@ + subst(tcur.skip(d as int + 2), gs, text@) =~= subst(
                                template@,
                                gs,
                                text@,
                            ));
                        }
                        i = j + 1;
                    } else {
                        // `{0...}`: not a capture reference, copied verbatim
                        push_char(&mut out, '{');
                        proof {
                            assert(out@ + subst(rest, gs, text@) =~= subst(template@, gs, text@));
                        }
                        i = i + 1;
                    }
                } else {
                    push_char(&mut out, '{');
                    proof {
                        assert(out@ + subst(rest, gs, text@) =~= subst(template@, gs, text@));
                    }
                    i = i + 1;
                }
            }
        }
    }
    proof {
        assert(v@.skip(v@.len() as int) =~= Seq::<char>::empty());
        assert(out@ + Seq::<char>::empty() =~= out@);
    }
    out
}

/// A rule takes part in matching when it is enabled, its pattern compiles,
/// and the pattern matches the text.
pub open spec fn rule_matches(r: RuleV, text: Seq<char>) -> bool {
    r.enabled && regex_compiles(r.pattern) && regex_groups(r.pattern, text) is Some
}

/// Position of the first rule that takes part in matching, in list order.
pub open spec fn first_match_idx(rules: Seq<RuleV>, text: Seq<char>) -> Option<int>
    decreases rules.len(),
{
    if rules.len() == 0 {
        Option::None
    } else if rule_matches(rules[0], text) {
        Option::Some(0int)
    } else {
        match first_match_idx(rules.drop_first(), text) {
            Option::Some(i) => Option::Some(i + 1),
            Option::None => Option::None,
        }
    }
}

/// The output URL owed for a matched rule: its template with the captured
/// groups and the whole text substituted in.
pub open spec fn match_output(r: RuleV, text: Seq<char>) -> Seq<char> {
    subst(r.url, regex_groups(r.pattern, text)->0, text)
}

/// The selected position always points at a rule that takes part in
/// matching, and no earlier rule does; when nothing is selected, no rule
/// takes part at all.
pub proof fn lemma_first_match_idx_props(rules: Seq<RuleV>, text: Seq<char>)
    ensures
        match first_match_idx(rules, text) {
            Option::Some(i) => 0 <= i < rules.len() && rule_matches(rules[i], text) && forall|
                k: int,
            | 0 <= k < i ==> !rule_matches(#[trigger] rules[k], text),
            Option::None => forall|k: int|
                0 <= k < rules.len() ==> !rule_matches(#[trigger] rules[k], text),
        },
    decreases rules.len(),
{
    if rules.len() == 0 {
    } else if rule_matches(rules[0], text) {
    } else {
        lemma_first_match_idx_props(rules.drop_first(), text);
        assert(forall|k: int|
            1 <= k < rules.len() ==> #[trigger] rules[k] == rules.drop_first()[k - 1]);
    }
}

/// First match wins: if some rule at position `j` takes part in matching,
/// the engine selects a position no later than `j`, and nothing before the
/// selected position takes part.
pub proof fn lemma_first_match_wins(rules: Seq<RuleV>, text: Seq<char>, j: int)
    requires
        0 <= j < rules.len(),
        rule_matches(rules[j], text),
    ensures
        first_match_idx(rules, text) matches Option::Some(i) && i <= j && rule_matches(
            rules[i],
            text,
        ) && forall|k: int| 0 <= k < i ==> !rule_matches(#[trigger] rules[k], text),
{
    lemma_first_match_idx_props(rules, text);
}

/// Skipping a prefix in which no rule takes part shifts the selected
/// position and changes nothing else.
proof fn lemma_first_match_skip(rules: Seq<RuleV>, text: Seq<char>, i: int)
    requires
        0 <= i <= rules.len(),
        forall|k: int| 0 <= k < i ==> !rule_matches(#[trigger] rules[k], text),
    ensures
        first_match_idx(rules, text) == match first_match_idx(rules.skip(i), text) {
            Option::Some(j) => Option::Some(i + j),
            Option::None => Option::None::<int>,
        },
    decreases i,
{
    if i == 0 {
        assert(rules.skip(0) =~= rules);
    } else {
        assert(forall|k: int|
            0 <= k < i - 1 ==> #[trigger] rules.drop_first()[k] == rules[k + 1]);
        lemma_first_match_skip(rules.drop_first(), text, i - 1);
        assert(rules.drop_first().skip(i - 1) =~= rules.skip(i));
    }
}

/// Result of one transformation request.
pub enum MatchResult {
    /// The first enabled, compiling, matching rule, and the URL built from
    /// its template.
    Matched { rule: UrlRule, output: String },
    /// No enabled rule matched; this is a valid result, not an error.
    NoMatch,
}

/// Finds the first matching rule in list order and builds its output URL.
/// Disabled rules and rules whose patterns fail to compile are skipped; an
/// empty or fully skipped list yields `NoMatch`.
pub fn match_rules(rules: &Vec<UrlRule>, text: &str) -> (r: MatchResult)
    ensures
        match first_match_idx(rules_view(rules@), text@) {
            Option::Some(i) => r matches MatchResult::Matched { rule, output } && rule == rules@[i]
                && output@ == match_output(rules@[i]@, text@),
            Option::None => r is NoMatch,
        },
{
    let ghost rv = rules_view(rules@);
    let mut i: usize = 0;
    while i < rules.len()
        invariant
            i <= rules.len(),
            rv == rules_view(rules@),
            forall|k: int| 0 <= k < i ==> !rule_matches(#[trigger] rv[k], text@),
        decreases rules.len() - i,
    {
        proof {
            assert(rv[i as int] == rules@[i as int]@);
        }
        if rules[i].enabled {
            let outcome = try_pattern(rules[i].pattern.as_str(), text);
            match outcome {
                RegexOutcome::CompileError => {
                    proof {
                        assert(!rule_matches(rv[i as int], text@));
                    }
                },
                RegexOutcome::NoMatch => {
                    proof {
                        assert(!rule_matches(rv[i as int], text@));
                    }
                },
                RegexOutcome::Match(g) => {
                    let output = build_output(rules[i].url.as_str(), &g, text);
                    let rule = rules[i].clone();
                    proof {
                        assert(rule_matches(rv[i as int], text@));
                        lemma_first_match_skip(rv, text@, i as int);
                        assert(rv.skip(i as int)[0] == rv[i as int]);
                        assert(first_match_idx(rv, text@) == Option::Some(i as int));
                    }
                    return MatchResult::Matched { rule, output };
                },
            }
        } else {
            proof {
                assert(!rule_matches(rv[i as int], text@));
            }
        }
        i = i + 1;
    }
    proof {
        lemma_first_match_skip(rv, text@, rv.len() as int);
        assert(rv.skip(rv.len() as int) =~= Seq::<RuleV>::empty());
    }
    MatchResult::NoMatch
}

/// The transformation service: normalizes the captured raw text, then runs
/// the match engine over the ordered rule list.
pub fn transform(raw_text: &str, rules: &Vec<UrlRule>) -> (r: MatchResult)
    ensures
        match first_match_idx(rules_view(rules@), crate::text::normalize_spec(raw_text@)) {
            Option::Some(i) => r matches MatchResult::Matched { rule, output } && rule
                == rules@[i] && output@ == match_output(
                rules@[i]@,
                crate::text::normalize_spec(raw_text@),
            ),
            Option::None => r is NoMatch,
        },
{
    let text = crate::text::process_selected_text(raw_text);
    match_rules(rules, text.as_str())
}

/// Disabling a rule keeps every stored position unchanged and removes
/// exactly that rule from consideration: the selection over the list with
/// the rule disabled is the selection over the list with the rule absent,
/// with positions after it shifted by one.
pub proof fn lemma_disable_excludes(rules: Seq<RuleV>, text: Seq<char>, i: int)
    requires
        0 <= i < rules.len(),
    ensures
        ({
            let d = rules.update(i, RuleV { enabled: false, ..rules[i] });
            let w = rules.remove(i);
            &&& forall|k: int| 0 <= k < rules.len() && k != i ==> #[trigger] d[k] == rules[k]
            &&& first_match_idx(d, text) == match first_match_idx(w, text) {
                Option::Some(j) => Option::Some(
                    if j < i {
                        j
                    } else {
                        j + 1
                    },
                ),
                Option::None => Option::None::<int>,
            }
        }),
    decreases rules.len(),
{
    let d = rules.update(i, RuleV { enabled: false, ..rules[i] });
    let w = rules.remove(i);
    lemma_first_match_idx_props(w, text);
    if i == 0 {
        assert(!rule_matches(d[0], text));
        assert(d.drop_first() =~= w);
        assert(first_match_idx(d, text) == match first_match_idx(w, text) {
            Option::Some(j) => Option::Some(j + 1),
            Option::None => Option::None::<int>,
        });
    } else {
        assert(d[0] == rules[0]);
        assert(w[0] == rules[0]);
        if rule_matches(rules[0], text) {
            assert(first_match_idx(d, text) == Option::Some(0int));
            assert(first_match_idx(w, text) == Option::Some(0int));
        } else {
            let r2 = rules.drop_first();
            lemma_disable_excludes(r2, text, i - 1);
            let d2 = r2.update(i - 1, RuleV { enabled: false, ..r2[i - 1] });
            let w2 = r2.remove(i - 1);
            lemma_first_match_idx_props(w2, text);
            assert(r2[i - 1] == rules[i]);
            assert(d.drop_first() =~= d2);
            assert(w.drop_first() =~= w2);
            assert(!rule_matches(d[0], text));
            assert(!rule_matches(w[0], text));
            assert(first_match_idx(d, text) == match first_match_idx(d2, text) {
                Option::Some(j) => Option::Some(j + 1),
                Option::None => Option::None::<int>,
            });
            assert(first_match_idx(w, text) == match first_match_idx(w2, text) {
                Option::Some(j) => Option::Some(j + 1),
                Option::None => Option::None::<int>,
            });
        }
    }
}

/// Re-enabling a rule that was enabled before it was disabled restores the
/// original list exactly, so matching behaves as before.
pub proof fn lemma_reenable_restores(rules: Seq<RuleV>, text: Seq<char>, i: int)
    requires
        0 <= i < rules.len(),
        rules[i].enabled,
    ensures
        ({
            let d = rules.update(i, RuleV { enabled: false, ..rules[i] });
            let e = d.update(i, RuleV { enabled: true, ..d[i] });
            &&& e == rules
            &&& first_match_idx(e, text) == first_match_idx(rules, text)
        }),
{
    let d = rules.update(i, RuleV { enabled: false, ..rules[i] });
    let e = d.update(i, RuleV { enabled: true, ..d[i] });
    assert(e[i] == rules[i]);
    assert(e =~= rules);
}

} // verus!

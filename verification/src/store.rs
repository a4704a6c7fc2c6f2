//! Rule store: the persisted representation of an ordered rule list — a
//! JSON document with a single `rules` key — together with its serializer,
//! its parser, and the load semantics that fall back to the built-in
//! defaults when the persisted form is absent or malformed.

use vstd::prelude::*;

use crate::chars::{chars_of, push_char, str_eq};
use crate::engine::{digits_val, is_digit, is_digit_char};
use crate::rules::{RuleV, RulesConfig, UrlRule, default_rules, get_default_rules, rules_view};

verus! {

// ---------------------------------------------------------------------------
// Serializer model
// ---------------------------------------------------------------------------
/// How one character is written inside a JSON string literal.
pub open spec fn esc_char(c: char) -> Seq<char> {
    if c == '"' {
        seq!['\\', '"']
    } else if c == '\\' {
        seq!['\\', '\\']
    } else if c == '\n' {
        seq!['\\', 'n']
    } else if c == '\t' {
        seq!['\\', 't']
    } else if c == '\r' {
        seq!['\\', 'r']
    } else {
        seq![c]
    }
}

/// The escaped body of a JSON string literal.
pub open spec fn ser_str(s: Seq<char>) -> Seq<char>
    decreases s.len(),
{
    if s.len() == 0 {
        Seq::empty()
    } else {
        esc_char(s[0]) + ser_str(s.drop_first())
    }
}

/// A quoted JSON string literal.
pub open spec fn ser_qstr(s: Seq<char>) -> Seq<char> {
    seq!['"'] + ser_str(s) + seq!['"']
}

/// The ASCII digit for one decimal digit value.
pub open spec fn digit_char(d: nat) -> char {
    if d == 0 {
        '0'
    } else if d == 1 {
        '1'
    } else if d == 2 {
        '2'
    } else if d == 3 {
        '3'
    } else if d == 4 {
        '4'
    } else if d == 5 {
        '5'
    } else if d == 6 {
        '6'
    } else if d == 7 {
        '7'
    } else if d == 8 {
        '8'
    } else {
        '9'
    }
}

/// Decimal digits of a number, most significant first, no leading zeros.
pub open spec fn dec_digits(n: nat) -> Seq<char>
    decreases n,
{
    if n < 10 {
        seq![digit_char(n)]
    } else {
        dec_digits(n / 10) + seq![digit_char(n % 10)]
    }
}

/// A JSON boolean literal.
pub open spec fn ser_bool(b: bool) -> Seq<char> {
    if b {
        "true"@
    } else {
        "false"@
    }
}

/// One serialized rule record: every field written, `iconSourceIndex` under
/// its external camel-case name.
pub open spec fn ser_rule(r: RuleV) -> Seq<char> {
    "{\"name\":"@ + ser_qstr(r.name) + ",\"pattern\":"@ + ser_qstr(r.pattern) + ",\"url\":"@
        + ser_qstr(r.url) + ",\"icon\":"@ + ser_qstr(r.icon) + ",\"enabled\":"@ + ser_bool(
        r.enabled,
    ) + ",\"iconSourceIndex\":"@ + dec_digits(r.icon_source_index as nat) + seq!['}']
}

/// The serialized array body: records joined by commas.
pub open spec fn ser_arr(rs: Seq<RuleV>) -> Seq<char>
    decreases rs.len(),
{
    if rs.len() == 0 {
        Seq::empty()
    } else if rs.len() == 1 {
        ser_rule(rs[0])
    } else {
        ser_rule(rs[0]) + seq![','] + ser_arr(rs.drop_first())
    }
}

/// The whole persisted document.
pub open spec fn ser_doc(rs: Seq<RuleV>) -> Seq<char> {
    "{\"rules\":["@ + ser_arr(rs) + "]}"@
}

// ---------------------------------------------------------------------------
// Parser model
// ---------------------------------------------------------------------------
/// Whitespace accepted between tokens of the persisted form.
pub open spec fn is_jws(c: char) -> bool {
    c == ' ' || c == '\t' || c == '\n' || c == '\r'
}

/// First position at or after `i` holding something other than whitespace.
pub open spec fn pws(s: Seq<char>, i: int) -> int
    decreases s.len() - i,
{
    if 0 <= i < s.len() && is_jws(s[i]) {
        pws(s, i + 1)
    } else {
        i
    }
}

/// Meaning of a backslash escape inside a string literal.
pub open spec fn unesc(c: char) -> Option<char> {
    if c == '"' {
        Option::Some('"')
    } else if c == '\\' {
        Option::Some('\\')
    } else if c == '/' {
        Option::Some('/')
    } else if c == 'n' {
        Option::Some('\n')
    } else if c == 't' {
        Option::Some('\t')
    } else if c == 'r' {
        Option::Some('\r')
    } else if c == 'b' {
        Option::Some('\u{0008}')
    } else if c == 'f' {
        Option::Some('\u{000C}')
    } else {
        Option::None
    }
}

/// Body of a string literal, from just after the opening quote up to and
/// including the closing quote.
pub open spec fn pstr_body(s: Seq<char>, i: int) -> Option<(Seq<char>, int)>
    decreases s.len() - i,
{
    if !(0 <= i < s.len()) {
        Option::None
    } else if s[i] == '"' {
        Option::Some((Seq::empty(), i + 1))
    } else if s[i] == '\\' {
        if i + 1 < s.len() {
            match unesc(s[i + 1]) {
                Option::Some(c) => match pstr_body(s, i + 2) {
                    Option::Some(p) => Option::Some((seq![c] + p.0, p.1)),
                    Option::None => Option::None,
                },
                Option::None => Option::None,
            }
        } else {
            Option::None
        }
    } else {
        match pstr_body(s, i + 1) {
            Option::Some(p) => Option::Some((seq![s[i]] + p.0, p.1)),
            Option::None => Option::None,
        }
    }
}

/// A quoted string literal starting exactly at `i`.
pub open spec fn pstring(s: Seq<char>, i: int) -> Option<(Seq<char>, int)> {
    if 0 <= i < s.len() && s[i] == '"' {
        pstr_body(s, i + 1)
    } else {
        Option::None
    }
}

/// First position at or after `i` holding a non-digit.
pub open spec fn digit_end(s: Seq<char>, i: int) -> int
    decreases s.len() - i,
{
    if 0 <= i < s.len() && is_digit(s[i]) {
        digit_end(s, i + 1)
    } else {
        i
    }
}

/// An unsigned decimal number starting exactly at `i`, rejected when it
/// does not fit the field's width.
pub open spec fn pu32(s: Seq<char>, i: int) -> Option<(u32, int)> {
    let j = digit_end(s, i);
    if 0 <= i && j > i && digits_val(s.subrange(i, j)) <= u32::MAX {
        Option::Some((digits_val(s.subrange(i, j)) as u32, j))
    } else {
        Option::None
    }
}

/// Whether the word `w` stands letter for letter at position `i`.
pub open spec fn lit_at(s: Seq<char>, i: int, w: Seq<char>) -> bool {
    0 <= i && i + w.len() <= s.len() && s.subrange(i, i + w.len() as int) == w
}

/// A boolean literal starting exactly at `i`.
pub open spec fn pbool(s: Seq<char>, i: int) -> Option<(bool, int)> {
    if lit_at(s, i, "true"@) {
        Option::Some((true, i + "true"@.len() as int))
    } else if lit_at(s, i, "false"@) {
        Option::Some((false, i + "false"@.len() as int))
    } else {
        Option::None
    }
}

/// Fields gathered while reading one record; required fields must appear,
/// optional ones fall back to their defaults.
pub struct PRule {
    pub name: Option<Seq<char>>,
    pub pattern: Option<Seq<char>>,
    pub url: Option<Seq<char>>,
    pub icon: Option<Seq<char>>,
    pub enabled: Option<bool>,
    pub icon_source_index: Option<u32>,
}

/// The empty field accumulator.
pub open spec fn prule_empty() -> PRule {
    PRule {
        name: Option::None,
        pattern: Option::None,
        url: Option::None,
        icon: Option::None,
        enabled: Option::None,
        icon_source_index: Option::None,
    }
}

/// One `"key": value` pair applied to the accumulator. Fields may come in
/// any order; a repeated or unknown key is an error.
pub open spec fn pfield_step(s: Seq<char>, i: int, k: Seq<char>, acc: PRule) -> Option<
    (PRule, int),
> {
    if k == "name"@ {
        if acc.name is None {
            match pstring(s, i) {
                Option::Some(p) => Option::Some((PRule { name: Option::Some(p.0), ..acc }, p.1)),
                Option::None => Option::None,
            }
        } else {
            Option::None
        }
    } else if k == "pattern"@ {
        if acc.pattern is None {
            match pstring(s, i) {
                Option::Some(p) => Option::Some(
                    (PRule { pattern: Option::Some(p.0), ..acc }, p.1),
                ),
                Option::None => Option::None,
            }
        } else {
            Option::None
        }
    } else if k == "url"@ {
        if acc.url is None {
            match pstring(s, i) {
                Option::Some(p) => Option::Some((PRule { url: Option::Some(p.0), ..acc }, p.1)),
                Option::None => Option::None,
            }
        } else {
            Option::None
        }
    } else if k == "icon"@ {
        if acc.icon is None {
            match pstring(s, i) {
                Option::Some(p) => Option::Some((PRule { icon: Option::Some(p.0), ..acc }, p.1)),
                Option::None => Option::None,
            }
        } else {
            Option::None
        }
    } else if k == "enabled"@ {
        if acc.enabled is None {
            match pbool(s, i) {
                Option::Some(p) => Option::Some(
                    (PRule { enabled: Option::Some(p.0), ..acc }, p.1),
                ),
                Option::None => Option::None,
            }
        } else {
            Option::None
        }
    } else if k == "iconSourceIndex"@ {
        if acc.icon_source_index is None {
            match pu32(s, i) {
                Option::Some(p) => Option::Some(
                    (PRule { icon_source_index: Option::Some(p.0), ..acc }, p.1),
                ),
                Option::None => Option::None,
            }
        } else {
            Option::None
        }
    } else {
        Option::None
    }
}

/// The fields of one record, from just after the opening brace up to and
/// including the closing brace.
pub open spec fn pfields(s: Seq<char>, i: int, acc: PRule) -> Option<(PRule, int)>
    decreases s.len() - i,
{
    let i1 = pws(s, i);
    match pstring(s, i1) {
        Option::None => Option::None,
        Option::Some((k, i2)) => {
            let i3 = pws(s, i2);
            if !(i3 < s.len() && s[i3] == ':') {
                Option::None
            } else {
                let i4 = pws(s, i3 + 1);
                match pfield_step(s, i4, k, acc) {
                    Option::None => Option::None,
                    Option::Some((acc2, i5)) => {
                        let i6 = pws(s, i5);
                        if i6 < s.len() && s[i6] == ',' {
                            if i < i6 + 1 <= s.len() {
                                pfields(s, i6 + 1, acc2)
                            } else {
                                Option::None
                            }
                        } else if i6 < s.len() && s[i6] == '}' {
                            Option::Some((acc2, i6 + 1))
                        } else {
                            Option::None
                        }
                    },
                }
            }
        },
    }
}

/// One rule record. Required fields: `name`, `pattern`, `url`, `icon`.
/// A missing `enabled` defaults to true, a missing `iconSourceIndex` to 0.
pub open spec fn prule(s: Seq<char>, i: int) -> Option<(RuleV, int)> {
    let i0 = pws(s, i);
    if i0 < s.len() && s[i0] == '{' {
        match pfields(s, i0 + 1, prule_empty()) {
            Option::None => Option::None,
            Option::Some((a, j)) => {
                if a.name is Some && a.pattern is Some && a.url is Some && a.icon is Some {
                    Option::Some(
                        (
                            RuleV {
                                name: a.name->0,
                                pattern: a.pattern->0,
                                url: a.url->0,
                                icon: a.icon->0,
                                enabled: match a.enabled {
                                    Option::Some(b) => b,
                                    Option::None => true,
                                },
                                icon_source_index: match a.icon_source_index {
                                    Option::Some(x) => x,
                                    Option::None => 0,
                                },
                            },
                            j,
                        ),
                    )
                } else {
                    Option::None
                }
            },
        }
    } else {
        Option::None
    }
}

/// The elements of a non-empty array, up to and including the closing
/// bracket.
pub open spec fn pelems(s: Seq<char>, i: int, acc: Seq<RuleV>) -> Option<(Seq<RuleV>, int)>
    decreases s.len() - i,
{
    match prule(s, i) {
        Option::None => Option::None,
        Option::Some((r, j)) => {
            let i2 = pws(s, j);
            if i2 < s.len() && s[i2] == ',' {
                if i < i2 + 1 <= s.len() {
                    pelems(s, i2 + 1, acc.push(r))
                } else {
                    Option::None
                }
            } else if i2 < s.len() && s[i2] == ']' {
                Option::Some((acc.push(r), i2 + 1))
            } else {
                Option::None
            }
        },
    }
}

/// A whole array of rule records.
pub open spec fn parray(s: Seq<char>, i: int) -> Option<(Seq<RuleV>, int)> {
    let i0 = pws(s, i);
    if i0 < s.len() && s[i0] == '[' {
        let i1 = pws(s, i0 + 1);
        if i1 < s.len() && s[i1] == ']' {
            Option::Some((Seq::empty(), i1 + 1))
        } else {
            pelems(s, i0 + 1, Seq::empty())
        }
    } else {
        Option::None
    }
}

// ---------------------------------------------------------------------------
// Serializer
// ---------------------------------------------------------------------------
/// Writes one string field as a quoted, escaped JSON literal.
fn emit_qstr(out: &mut String, s: &String)
    ensures
        final (out)@ == old(out)@ + ser_qstr(s@),
{
    push_char(out, '"');
    let ghost base = out@;
    let v = chars_of(s.as_str());
    let mut i: usize = 0;
    proof {
        assert(v@.skip(0) =~= v@);
    }
    while i < v.len()
        invariant
            i <= v.len(),
            v@ == s@,
            out@ + ser_str(v@.skip(i as int)) == base + ser_str(s@),
        decreases v.len() - i,
    {
        let ghost rest = v@.skip(i as int);
        proof {
            assert(rest[0] == v@[i as int]);
            assert(v@.skip(i as int + 1) =~= rest.drop_first());
        }
        let c = v[i];
        if c == '"' {
            push_char(out, '\\');
            push_char(out, '"');
        } else if c == '\\' {
            push_char(out, '\\');
            push_char(out, '\\');
        } else if c == '\n' {
            push_char(out, '\\');
            push_char(out, 'n');
        } else if c == '\t' {
            push_char(out, '\\');
            push_char(out, 't');
        } else if c == '\r' {
            push_char(out, '\\');
            push_char(out, 'r');
        } else {
            push_char(out, c);
        }
        proof {
            assert(out@ + ser_str(rest.drop_first()) =~= base + ser_str(s@));
        }
        i = i + 1;
    }
    proof {
        assert(v@.skip(v@.len() as int) =~= Seq::<char>::empty());
        assert(out@ + Seq::<char>::empty() =~= out@);
    }
    push_char(out, '"');
    proof {
        assert(out@ =~= old(out)@ + ser_qstr(s@));
    }
}

/// The ASCII digit for one decimal digit value.
fn digit_char_x(d: u32) -> (c: char)
    requires
        d < 10,
    ensures
        c == digit_char(d as nat),
{
    if d == 0 {
        '0'
    } else if d == 1 {
        '1'
    } else if d == 2 {
        '2'
    } else if d == 3 {
        '3'
    } else if d == 4 {
        '4'
    } else if d == 5 {
        '5'
    } else if d == 6 {
        '6'
    } else if d == 7 {
        '7'
    } else if d == 8 {
        '8'
    } else {
        '9'
    }
}

/// Writes a number in decimal, most significant digit first.
fn emit_u32(out: &mut String, n: u32)
    ensures
        final (out)@ == old(out)@ + dec_digits(n as nat),
    decreases n,
{
    if n < 10 {
        push_char(out, digit_char_x(n));
    } else {
        emit_u32(out, n / 10);
        push_char(out, digit_char_x(n % 10));
        proof {
            assert(old(out)@ + dec_digits((n / 10) as nat) + seq![digit_char((n % 10) as nat)]
                =~= old(out)@ + dec_digits(n as nat));
        }
    }
}

/// Writes one rule record.
fn emit_rule(out: &mut String, r: &UrlRule)
    ensures
        final (out)@ == old(out)@ + ser_rule(r@),
{
    out.append("{\"name\":");
    emit_qstr(out, &r.name);
    out.append(",\"pattern\":");
    emit_qstr(out, &r.pattern);
    out.append(",\"url\":");
    emit_qstr(out, &r.url);
    out.append(",\"icon\":");
    emit_qstr(out, &r.icon);
    out.append(",\"enabled\":");
    if r.enabled {
        out.append("true");
    } else {
        out.append("false");
    }
    out.append(",\"iconSourceIndex\":");
    emit_u32(out, r.icon_source_index);
    push_char(out, '}');
    proof {
        assert(out@ =~= old(out)@ + ser_rule(r@));
    }
}

/// What of the serialized array body is still owed after the first `i`
/// records have been written.
pub open spec fn arr_rest(rs: Seq<RuleV>, i: int) -> Seq<char> {
    if i == rs.len() {
        Seq::empty()
    } else if i == 0 {
        ser_arr(rs)
    } else {
        seq![','] + ser_arr(rs.skip(i))
    }
}

/// Serializes an ordered rule list into the persisted document text.
pub fn save_rules(rules: &Vec<UrlRule>) -> (r: String)
    ensures
        r@ == ser_doc(rules_view(rules@)),
{
    let ghost rv = rules_view(rules@);
    let mut out = String::new();
    out.append("{\"rules\":[");
    let mut i: usize = 0;
    proof {
        assert(out@ =~= "{\"rules\":["@);
        assert(out@ + arr_rest(rv, 0) + "]}"@ =~= ser_doc(rv));
    }
    while i < rules.len()
        invariant
            i <= rules.len(),
            rv == rules_view(rules@),
            out@ + arr_rest(rv, i as int) + "]}"@ == ser_doc(rv),
        decreases rules.len() - i,
    {
        if i > 0 {
            out.append(",");
            proof {
                reveal_strlit(",");
                assert(","@ =~= seq![',']);
            }
        }
        emit_rule(&mut out, &rules[i]);
        proof {
            assert(rv[i as int] == rules@[i as int]@);
            if i + 1 < rules.len() {
                assert(rv.skip(i as int).drop_first() =~= rv.skip(i as int + 1));
                assert(rv.skip(i as int)[0] == rv[i as int]);
            }
            assert(out@ + arr_rest(rv, i as int + 1) + "]}"@ =~= ser_doc(rv));
        }
        i = i + 1;
    }
    out.append("]}");
    proof {
        assert(out@ =~= ser_doc(rv));
    }
    out
}

/// The whole persisted document: an object holding the ordered rule list
/// under the single key `rules`, with nothing but whitespace after it.
pub open spec fn parse_doc(s: Seq<char>) -> Option<Seq<RuleV>> {
    let i0 = pws(s, 0);
    if i0 < s.len() && s[i0] == '{' {
        match pstring(s, pws(s, i0 + 1)) {
            Option::None => Option::None,
            Option::Some((k, i2)) => {
                if k == "rules"@ {
                    let i3 = pws(s, i2);
                    if i3 < s.len() && s[i3] == ':' {
                        match parray(s, i3 + 1) {
                            Option::None => Option::None,
                            Option::Some((rs, j)) => {
                                let i4 = pws(s, j);
                                if i4 < s.len() && s[i4] == '}' {
                                    if pws(s, i4 + 1) == s.len() {
                                        Option::Some(rs)
                                    } else {
                                        Option::None
                                    }
                                } else {
                                    Option::None
                                }
                            },
                        }
                    } else {
                        Option::None
                    }
                } else {
                    Option::None
                }
            },
        }
    } else {
        Option::None
    }
}

// ---------------------------------------------------------------------------
// Parser
// ---------------------------------------------------------------------------
fn is_jws_char(c: char) -> (r: bool)
    ensures
        r == is_jws(c),
{
    c == ' ' || c == '\t' || c == '\n' || c == '\r'
}

/// Skips whitespace between tokens.
fn pws_x(v: &Vec<char>, i: usize) -> (r: usize)
    requires
        i <= v.len(),
    ensures
        r as int == pws(v@, i as int),
        i <= r <= v.len(),
{
    let mut j: usize = i;
    while j < v.len() && is_jws_char(v[j])
        invariant
            i <= j <= v.len(),
            pws(v@, i as int) == pws(v@, j as int),
        decreases v.len() - j,
    {
        j = j + 1;
    }
    j
}

fn unesc_x(c: char) -> (r: Option<char>)
    ensures
        r == unesc(c),
{
    if c == '"' {
        Some('"')
    } else if c == '\\' {
        Some('\\')
    } else if c == '/' {
        Some('/')
    } else if c == 'n' {
        Some('\n')
    } else if c == 't' {
        Some('\t')
    } else if c == 'r' {
        Some('\r')
    } else if c == 'b' {
        Some('\u{0008}')
    } else if c == 'f' {
        Some('\u{000C}')
    } else {
        None
    }
}

/// Reads the body of a string literal, through the closing quote.
fn pstr_body_x(v: &Vec<char>, start: usize) -> (r: Option<(String, usize)>)
    ensures
        match pstr_body(v@, start as int) {
            Option::None => r is None,
            Option::Some(p) => r matches Option::Some((sv, j)) && sv@ == p.0 && j as int == p.1
                && j <= v.len(),
        },
{
    let mut out = String::new();
    let mut i: usize = start;
    loop
        invariant
            start <= i,
            pstr_body(v@, start as int) == match pstr_body(v@, i as int) {
                Option::Some(p) => Option::Some((out@ + p.0, p.1)),
                Option::None => Option::None::<(Seq<char>, int)>,
            },
        ensures
            match pstr_body(v@, start as int) {
                Option::None => false,
                Option::Some(p) => out@ == p.0 && i as int + 1 == p.1 && i + 1 <= v.len(),
            },
        decreases v.len() - i,
    {
        proof {
            match pstr_body(v@, i as int) {
                Option::Some(p) => {
                    assert(out@ + p.0 =~= out@ + p.0);
                },
                Option::None => {},
            }
        }
        if i >= v.len() {
            return None;
        }
        let c = v[i];
        if c == '"' {
            proof {
                assert(out@ + Seq::<char>::empty() =~= out@);
            }
            break ;
        } else if c == '\\' {
            if i + 1 >= v.len() {
                return None;
            }
            match unesc_x(v[i + 1]) {
                None => {
                    return None;
                },
                Some(u) => {
                    let ghost out_old = out@;
                    push_char(&mut out, u);
                    proof {
                        match pstr_body(v@, i as int + 2) {
                            Option::Some(p) => {
                                assert(out@ + p.0 =~= out_old + (seq![u] + p.0));
                            },
                            Option::None => {},
                        }
                    }
                    i = i + 2;
                },
            }
        } else {
            push_char(&mut out, c);
            i = i + 1;
        }
    }
    Some((out, i + 1))
}

/// Reads a quoted string literal starting exactly at `i`.
fn pstring_x(v: &Vec<char>, i: usize) -> (r: Option<(String, usize)>)
    requires
        i <= v.len(),
    ensures
        match pstring(v@, i as int) {
            Option::None => r is None,
            Option::Some(p) => r matches Option::Some((sv, j)) && sv@ == p.0 && j as int == p.1
                && j <= v.len(),
        },
{
    if i < v.len() && v[i] == '"' {
        pstr_body_x(v, i + 1)
    } else {
        None
    }
}

/// Reads an unsigned decimal number starting exactly at `i`.
fn pu32_x(v: &Vec<char>, i: usize) -> (r: Option<(u32, usize)>)
    requires
        i <= v.len(),
    ensures
        match pu32(v@, i as int) {
            Option::None => r is None,
            Option::Some(p) => r matches Option::Some((nv, j)) && nv == p.0 && j as int == p.1
                && j <= v.len(),
        },
{
    let mut j: usize = i;
    while j < v.len() && is_digit_char(v[j])
        invariant
            i <= j <= v.len(),
            digit_end(v@, i as int) == digit_end(v@, j as int),
            forall|k: int| i <= k < j ==> is_digit(#[trigger] v@[k]),
        decreases v.len() - j,
    {
        j = j + 1;
    }
    if j == i {
        return None;
    }
    let ghost dseq = v@.subrange(i as int, j as int);
    let mut n: u64 = 0;
    let mut of: bool = false;
    let mut k: usize = i;
    proof {
        assert(dseq.take(0) =~= Seq::<char>::empty());
    }
    while k < j
        invariant
            i <= k <= j <= v.len(),
            dseq == v@.subrange(i as int, j as int),
            forall|k2: int| i <= k2 < j ==> is_digit(#[trigger] v@[k2]),
            !of ==> n == digits_val(dseq.take(k - i)),
            of ==> digits_val(dseq.take(k - i)) > u64::MAX,
        decreases j - k,
    {
        let ghost m = k - i;
        proof {
            assert(dseq.take(m + 1).drop_last() =~= dseq.take(m));
            assert(dseq.take(m + 1).last() == v@[i as int + m]);
            assert(is_digit(v@[k as int]));
        }
        let c2 = v[k];
        let dig = (c2 as u32 - 0x30) as u64;
        if of {
            proof {
                let prev = digits_val(dseq.take(m));
                assert(digits_val(dseq.take(m + 1)) == prev * 10 + crate::engine::dval(c2));
                assert(prev * 10 >= prev);
            }
        } else {
            match n.checked_mul(10) {
                Some(x) => match x.checked_add(dig) {
                    Some(y) => {
                        n = y;
                    },
                    None => {
                        of = true;
                    },
                },
                None => {
                    of = true;
                },
            }
        }
        k = k + 1;
    }
    proof {
        assert(dseq.take(j - i) =~= dseq);
    }
    if !of && n <= 0xFFFF_FFFFu64 {
        Some((n as u32, j))
    } else {
        None
    }
}

/// Reads a boolean literal starting exactly at `i`.
fn pbool_x(v: &Vec<char>, i: usize) -> (r: Option<(bool, usize)>)
    requires
        i <= v.len(),
    ensures
        match pbool(v@, i as int) {
            Option::None => r is None,
            Option::Some(p) => r matches Option::Some((bv, j)) && bv == p.0 && j as int == p.1
                && j <= v.len(),
        },
{
    proof {
        reveal_strlit("true");
        reveal_strlit("false");
        if i + 4 <= v.len() {
            assert(v@.subrange(i as int, i as int + 4) =~= seq![
                v@[i as int],
                v@[i as int + 1],
                v@[i as int + 2],
                v@[i as int + 3],
            ]);
            assert("true"@ =~= seq!['t', 'r', 'u', 'e']);
        }
        if i + 5 <= v.len() {
            assert(v@.subrange(i as int, i as int + 5) =~= seq![
                v@[i as int],
                v@[i as int + 1],
                v@[i as int + 2],
                v@[i as int + 3],
                v@[i as int + 4],
            ]);
            assert("false"@ =~= seq!['f', 'a', 'l', 's', 'e']);
        }
    }
    if v.len() - i >= 4 && v[i] == 't' && v[i + 1] == 'r' && v[i + 2] == 'u' && v[i + 3] == 'e' {
        proof {
            assert(lit_at(v@, i as int, "true"@));
        }
        Some((true, i + 4))
    } else if v.len() - i >= 5 && v[i] == 'f' && v[i + 1] == 'a' && v[i + 2] == 'l' && v[i + 3]
        == 's' && v[i + 4] == 'e' {
        proof {
            assert(!lit_at(v@, i as int, "true"@));
            assert(lit_at(v@, i as int, "false"@));
        }
        Some((false, i + 5))
    } else {
        proof {
            assert(!lit_at(v@, i as int, "true"@));
            assert(!lit_at(v@, i as int, "false"@));
        }
        None
    }
}

/// Fields gathered while reading one record.
struct PRuleAcc {
    name: Option<String>,
    pattern: Option<String>,
    url: Option<String>,
    icon: Option<String>,
    enabled: Option<bool>,
    icon_source_index: Option<u32>,
}

spec fn acc_view(a: PRuleAcc) -> PRule {
    PRule {
        name: match a.name {
            Option::Some(s) => Option::Some(s@),
            Option::None => Option::None,
        },
        pattern: match a.pattern {
            Option::Some(s) => Option::Some(s@),
            Option::None => Option::None,
        },
        url: match a.url {
            Option::Some(s) => Option::Some(s@),
            Option::None => Option::None,
        },
        icon: match a.icon {
            Option::Some(s) => Option::Some(s@),
            Option::None => Option::None,
        },
        enabled: a.enabled,
        icon_source_index: a.icon_source_index,
    }
}

/// Applies one `"key": value` pair to the accumulator.
fn pfield_step_x(v: &Vec<char>, i: usize, k: &String, acc: PRuleAcc) -> (r: Option<
    (PRuleAcc, usize),
>)
    requires
        i <= v.len(),
    ensures
        match pfield_step(v@, i as int, k@, acc_view(acc)) {
            Option::None => r is None,
            Option::Some(p) => r matches Option::Some((a2, j)) && acc_view(a2) == p.0 && j as int
                == p.1 && j <= v.len(),
        },
{
    if str_eq(k, "name") {
        if acc.name.is_some() {
            return None;
        }
        match pstring_x(v, i) {
            Some((s, j)) => Some((PRuleAcc { name: Some(s), ..acc }, j)),
            None => None,
        }
    } else if str_eq(k, "pattern") {
        if acc.pattern.is_some() {
            return None;
        }
        match pstring_x(v, i) {
            Some((s, j)) => Some((PRuleAcc { pattern: Some(s), ..acc }, j)),
            None => None,
        }
    } else if str_eq(k, "url") {
        if acc.url.is_some() {
            return None;
        }
        match pstring_x(v, i) {
            Some((s, j)) => Some((PRuleAcc { url: Some(s), ..acc }, j)),
            None => None,
        }
    } else if str_eq(k, "icon") {
        if acc.icon.is_some() {
            return None;
        }
        match pstring_x(v, i) {
            Some((s, j)) => Some((PRuleAcc { icon: Some(s), ..acc }, j)),
            None => None,
        }
    } else if str_eq(k, "enabled") {
        if acc.enabled.is_some() {
            return None;
        }
        match pbool_x(v, i) {
            Some((b, j)) => Some((PRuleAcc { enabled: Some(b), ..acc }, j)),
            None => None,
        }
    } else if str_eq(k, "iconSourceIndex") {
        if acc.icon_source_index.is_some() {
            return None;
        }
        match pu32_x(v, i) {
            Some((n, j)) => Some((PRuleAcc { icon_source_index: Some(n), ..acc }, j)),
            None => None,
        }
    } else {
        None
    }
}

/// Reads the fields of one record, through the closing brace.
fn pfields_x(v: &Vec<char>, i: usize, acc: PRuleAcc) -> (r: Option<(PRuleAcc, usize)>)
    requires
        i <= v.len(),
    ensures
        match pfields(v@, i as int, acc_view(acc)) {
            Option::None => r is None,
            Option::Some(p) => r matches Option::Some((a2, j)) && acc_view(a2) == p.0 && j as int
                == p.1 && j <= v.len(),
        },
    decreases v.len() - i,
{
    let i1 = pws_x(v, i);
    match pstring_x(v, i1) {
        None => None,
        Some((k, i2)) => {
            let i3 = pws_x(v, i2);
            if !(i3 < v.len() && v[i3] == ':') {
                return None;
            }
            let i4 = pws_x(v, i3 + 1);
            match pfield_step_x(v, i4, &k, acc) {
                None => None,
                Some((acc2, i5)) => {
                    let i6 = pws_x(v, i5);
                    if i6 < v.len() && v[i6] == ',' {
                        if i6 + 1 > i {
                            pfields_x(v, i6 + 1, acc2)
                        } else {
                            None
                        }
                    } else if i6 < v.len() && v[i6] == '}' {
                        Some((acc2, i6 + 1))
                    } else {
                        None
                    }
                },
            }
        },
    }
}

/// Reads one rule record, filling defaults for the optional fields.
fn prule_x(v: &Vec<char>, i: usize) -> (r: Option<(UrlRule, usize)>)
    requires
        i <= v.len(),
    ensures
        match prule(v@, i as int) {
            Option::None => r is None,
            Option::Some(p) => r matches Option::Some((rule, j)) && rule@ == p.0 && j as int == p.1
                && j <= v.len(),
        },
{
    let i0 = pws_x(v, i);
    if !(i0 < v.len() && v[i0] == '{') {
        return None;
    }
    let acc0 = PRuleAcc {
        name: None,
        pattern: None,
        url: None,
        icon: None,
        enabled: None,
        icon_source_index: None,
    };
    proof {
        assert(acc_view(acc0) == prule_empty());
    }
    match pfields_x(v, i0 + 1, acc0) {
        None => None,
        Some((a, j)) => {
            match (a.name, a.pattern, a.url, a.icon) {
                (Some(name), Some(pattern), Some(url), Some(icon)) => {
                    let rule = UrlRule {
                        name,
                        pattern,
                        url,
                        icon,
                        enabled: match a.enabled {
                            Some(b) => b,
                            None => true,
                        },
                        icon_source_index: match a.icon_source_index {
                            Some(x) => x,
                            None => 0,
                        },
                    };
                    Some((rule, j))
                },
                _ => None,
            }
        },
    }
}

/// Reads the elements of a non-empty array, through the closing bracket.
fn pelems_x(v: &Vec<char>, i: usize, acc: Vec<UrlRule>) -> (r: Option<(Vec<UrlRule>, usize)>)
    requires
        i <= v.len(),
    ensures
        match pelems(v@, i as int, rules_view(acc@)) {
            Option::None => r is None,
            Option::Some(p) => r matches Option::Some((rs, j)) && rules_view(rs@) == p.0 && j
                as int == p.1 && j <= v.len(),
        },
    decreases v.len() - i,
{
    match prule_x(v, i) {
        None => None,
        Some((rule, j)) => {
            let ghost rspec = (prule(v@, i as int)->0).0;
            let i2 = pws_x(v, j);
            let mut acc2 = acc;
            let ghost accv = rules_view(acc2@);
            acc2.push(rule);
            proof {
                assert(rules_view(acc2@) =~= accv.push(rspec));
            }
            if i2 < v.len() && v[i2] == ',' {
                if i2 + 1 > i {
                    pelems_x(v, i2 + 1, acc2)
                } else {
                    None
                }
            } else if i2 < v.len() && v[i2] == ']' {
                Some((acc2, i2 + 1))
            } else {
                None
            }
        },
    }
}

/// Reads a whole array of rule records.
fn parray_x(v: &Vec<char>, i: usize) -> (r: Option<(Vec<UrlRule>, usize)>)
    requires
        i <= v.len(),
    ensures
        match parray(v@, i as int) {
            Option::None => r is None,
            Option::Some(p) => r matches Option::Some((rs, j)) && rules_view(rs@) == p.0 && j
                as int == p.1 && j <= v.len(),
        },
{
    let i0 = pws_x(v, i);
    if !(i0 < v.len() && v[i0] == '[') {
        return None;
    }
    let i1 = pws_x(v, i0 + 1);
    if i1 < v.len() && v[i1] == ']' {
        let empty: Vec<UrlRule> = Vec::new();
        proof {
            assert(rules_view(empty@) =~= Seq::<RuleV>::empty());
        }
        Some((empty, i1 + 1))
    } else {
        let empty: Vec<UrlRule> = Vec::new();
        proof {
            assert(rules_view(empty@) =~= Seq::<RuleV>::empty());
        }
        pelems_x(v, i0 + 1, empty)
    }
}

/// Failure to read the persisted form; the caller falls back to defaults.
#[derive(Debug, Clone, Copy, PartialEq, Eq)]
pub struct ParseError;

/// Parses the persisted document into a rule configuration. Succeeds on
/// exactly the texts the document grammar accepts; anything else is an
/// error.
pub fn parse_rules(content: &str) -> (r: Result<RulesConfig, ParseError>)
    ensures
        match parse_doc(content@) {
            Option::Some(rs) => r matches Result::Ok(cfg) && cfg@ == rs,
            Option::None => r is Err,
        },
{
    let v = chars_of(content);
    let i0 = pws_x(&v, 0);
    if !(i0 < v.len() && v[i0] == '{') {
        return Err(ParseError);
    }
    let i0b = pws_x(&v, i0 + 1);
    match pstring_x(&v, i0b) {
        None => Err(ParseError),
        Some((k, i2)) => {
            if !str_eq(&k, "rules") {
                return Err(ParseError);
            }
            let i3 = pws_x(&v, i2);
            if !(i3 < v.len() && v[i3] == ':') {
                return Err(ParseError);
            }
            match parray_x(&v, i3 + 1) {
                None => Err(ParseError),
                Some((rs, j)) => {
                    let i4 = pws_x(&v, j);
                    if !(i4 < v.len() && v[i4] == '}') {
                        return Err(ParseError);
                    }
                    if pws_x(&v, i4 + 1) == v.len() {
                        Ok(RulesConfig { rules: rs })
                    } else {
                        Err(ParseError)
                    }
                },
            }
        },
    }
}

/// Load semantics: the persisted text when present and well-formed, the
/// built-in defaults when the text is absent or fails to parse.
pub fn load_rules(content: Option<&str>) -> (r: Vec<UrlRule>)
    ensures
        match content {
            Option::Some(s) => match parse_doc(s@) {
                Option::Some(rs) => rules_view(r@) == rs,
                Option::None => rules_view(r@) == default_rules(),
            },
            Option::None => rules_view(r@) == default_rules(),
        },
{
    match content {
        None => get_default_rules(),
        Some(s) => match parse_rules(s) {
            Ok(cfg) => cfg.rules,
            Err(_) => get_default_rules(),
        },
    }
}

// ---------------------------------------------------------------------------
// The parser inverts the serializer
// ---------------------------------------------------------------------------
/// A serialized string body followed by its closing quote parses back to
/// exactly the original characters.
proof fn lemma_pstr_body_ser(x: Seq<char>, s: Seq<char>, i: int)
    requires
        0 <= i,
        i + ser_str(x).len() + 1 <= s.len(),
        s.subrange(i, i + ser_str(x).len() + 1) == ser_str(x) + seq!['"'],
    ensures
        pstr_body(s, i) == Option::Some((x, i + ser_str(x).len() + 1)),
    decreases x.len(),
{
    let ll = ser_str(x).len() + 1;
    if x.len() == 0 {
        assert(s[i] == '"') by {
            assert(s.subrange(i, i + ll)[0] == s[i]);
        }
        assert(x =~= Seq::<char>::empty());
    } else {
        let e = esc_char(x[0]);
        let tail = ser_str(x.drop_first());
        assert(ser_str(x) == e + tail);
        let xd = x.drop_first();
        let tl = tail.len() + 1;
        if e.len() == 1 {
            assert(s[i] == x[0]) by {
                assert(s.subrange(i, i + ll)[0] == s[i]);
            }
            assert(x[0] != '"' && x[0] != '\\');
            assert forall|t: int| 0 <= t < tl implies s.subrange(i + 1, i + 1 + tl)[t] == (tail
                + seq!['"'])[t] by {
                assert(s.subrange(i, i + ll)[t + 1] == s[i + t + 1]);
                assert(s.subrange(i + 1, i + 1 + tl)[t] == s[i + 1 + t]);
            }
            assert(s.subrange(i + 1, i + 1 + tl) =~= tail + seq!['"']);
            lemma_pstr_body_ser(xd, s, i + 1);
            assert(seq![s[i]] + xd =~= x);
        } else {
            assert(s[i] == '\\' && s[i + 1] == e[1]) by {
                assert(s.subrange(i, i + ll)[0] == s[i]);
                assert(s.subrange(i, i + ll)[1] == s[i + 1]);
            }
            assert(unesc(e[1]) == Option::Some(x[0]));
            assert forall|t: int| 0 <= t < tl implies s.subrange(i + 2, i + 2 + tl)[t] == (tail
                + seq!['"'])[t] by {
                assert(s.subrange(i, i + ll)[t + 2] == s[i + t + 2]);
                assert(s.subrange(i + 2, i + 2 + tl)[t] == s[i + 2 + t]);
            }
            assert(s.subrange(i + 2, i + 2 + tl) =~= tail + seq!['"']);
            lemma_pstr_body_ser(xd, s, i + 2);
            assert(seq![x[0]] + xd =~= x);
        }
    }
}

/// A serialized quoted string parses back to exactly the original.
proof fn lemma_pstring_ser(x: Seq<char>, s: Seq<char>, i: int)
    requires
        0 <= i,
        i + ser_qstr(x).len() <= s.len(),
        s.subrange(i, i + ser_qstr(x).len() as int) == ser_qstr(x),
    ensures
        pstring(s, i) == Option::Some((x, i + ser_qstr(x).len() as int)),
{
    let ql = ser_qstr(x).len() as int;
    let bl = ser_str(x).len() + 1;
    assert(s[i] == '"') by {
        assert(s.subrange(i, i + ql)[0] == s[i]);
    }
    assert forall|t: int| 0 <= t < bl implies s.subrange(i + 1, i + 1 + bl)[t] == (ser_str(x)
        + seq!['"'])[t] by {
        assert(s.subrange(i, i + ql)[t + 1] == s[i + t + 1]);
        assert(s.subrange(i + 1, i + 1 + bl)[t] == s[i + 1 + t]);
        assert((seq!['"'] + ser_str(x) + seq!['"'])[t + 1] == (ser_str(x) + seq!['"'])[t]);
    }
    assert(s.subrange(i + 1, i + 1 + bl) =~= ser_str(x) + seq!['"']);
    lemma_pstr_body_ser(x, s, i + 1);
}

/// A string with no character needing an escape serializes to itself.
proof fn lemma_ser_str_plain(x: Seq<char>)
    requires
        forall|k: int|
            0 <= k < x.len() ==> !(#[trigger] x[k] == '"' || x[k] == '\\' || x[k] == '\n' || x[k]
                == '\t' || x[k] == '\r'),
    ensures
        ser_str(x) == x,
    decreases x.len(),
{
    if x.len() == 0 {
        assert(ser_str(x) =~= x);
    } else {
        assert(esc_char(x[0]) == seq![x[0]]);
        lemma_ser_str_plain(x.drop_first());
        assert(ser_str(x) =~= x);
    }
}

/// The decimal form of a number holds only digits and reads back as the
/// same number.
proof fn lemma_dec_digits(n: nat)
    ensures
        dec_digits(n).len() >= 1,
        forall|k: int| 0 <= k < dec_digits(n).len() ==> is_digit(#[trigger] dec_digits(n)[k]),
        digits_val(dec_digits(n)) == n,
    decreases n,
{
    if n < 10 {
        assert(is_digit(digit_char(n)));
        assert(dec_digits(n) == seq![digit_char(n)]);
        assert(seq![digit_char(n)].drop_last() =~= Seq::<char>::empty());
        assert(digits_val(Seq::<char>::empty()) == 0);
        assert(seq![digit_char(n)].last() == digit_char(n));
        assert(digits_val(dec_digits(n)) == 0 * 10 + crate::engine::dval(digit_char(n)));
        assert(crate::engine::dval(digit_char(n)) == n);
    } else {
        lemma_dec_digits(n / 10);
        let a = dec_digits(n / 10);
        let c = digit_char((n % 10) as nat);
        assert(dec_digits(n) == a + seq![c]);
        assert((a + seq![c]).drop_last() =~= a);
        assert((a + seq![c]).last() == c);
        assert(digits_val(dec_digits(n)) == digits_val(a) * 10 + crate::engine::dval(c));
        assert(is_digit(c));
        assert(crate::engine::dval(c) == n % 10);
        assert(forall|k: int|
            0 <= k < dec_digits(n).len() ==> is_digit(#[trigger] dec_digits(n)[k])) by {
            assert(forall|k: int|
                0 <= k < a.len() ==> #[trigger] dec_digits(n)[k] == a[k]);
            assert(dec_digits(n)[a.len() as int] == c);
        }
    }
}

/// Digits running up to a known non-digit end exactly there.
proof fn lemma_digit_end_is(s: Seq<char>, i: int, j: int)
    requires
        0 <= i <= j <= s.len(),
        forall|k: int| i <= k < j ==> is_digit(#[trigger] s[k]),
        j == s.len() || !is_digit(s[j]),
    ensures
        digit_end(s, i) == j,
    decreases j - i,
{
    if i == j {
    } else {
        assert(is_digit(s[i]));
        lemma_digit_end_is(s, i + 1, j);
    }
}

/// A serialized number followed by a non-digit parses back to the number.
proof fn lemma_pu32_ser(n: u32, s: Seq<char>, i: int)
    requires
        0 <= i,
        i + dec_digits(n as nat).len() < s.len(),
        s.subrange(i, i + dec_digits(n as nat).len() as int) == dec_digits(n as nat),
        !is_digit(s[i + dec_digits(n as nat).len()]),
    ensures
        pu32(s, i) == Option::Some((n, i + dec_digits(n as nat).len() as int)),
{
    let dd = dec_digits(n as nat);
    let dl = dd.len() as int;
    lemma_dec_digits(n as nat);
    assert forall|k: int| i <= k < i + dl implies is_digit(s[k]) by {
        assert(s.subrange(i, i + dl)[k - i] == s[k]);
        assert(is_digit(dd[k - i]));
    }
    let j = i + dl;
    lemma_digit_end_is(s, i, j);
    assert(s.subrange(i, j) == dd);
}

/// Splitting a known subrange of `s` at a concatenation boundary.
proof fn lemma_peel(s: Seq<char>, a: int, b: int, part: Seq<char>, rest: Seq<char>)
    requires
        0 <= a <= b <= s.len(),
        s.subrange(a, b) == part + rest,
    ensures
        s.subrange(a, a + part.len() as int) == part,
        s.subrange(a + part.len() as int, b) == rest,
{
    assert(s.subrange(a, b).len() == b - a);
    assert((part + rest).len() == part.len() + rest.len());
    assert(b - a == part.len() + rest.len());
    assert forall|t: int| 0 <= t < part.len() implies s.subrange(a, a + part.len() as int)[t]
        == part[t] by {
        assert(s.subrange(a, b)[t] == s[a + t]);
        assert(s.subrange(a, a + part.len() as int)[t] == s[a + t]);
        assert((part + rest)[t] == part[t]);
    }
    assert(s.subrange(a, a + part.len() as int) =~= part);
    assert forall|t: int| 0 <= t < rest.len() implies s.subrange(a + part.len() as int, b)[t]
        == rest[t] by {
        assert(s.subrange(a, b)[part.len() + t] == s[a + part.len() + t]);
        assert(s.subrange(a + part.len() as int, b)[t] == s[a + part.len() + t]);
        assert((part + rest)[part.len() + t] == rest[t]);
    }
    assert(s.subrange(a + part.len() as int, b) =~= rest);
}

/// A serialized boolean parses back to the same boolean.
proof fn lemma_pbool_ser(b: bool, s: Seq<char>, i: int)
    requires
        0 <= i,
        i + ser_bool(b).len() <= s.len(),
        s.subrange(i, i + ser_bool(b).len() as int) == ser_bool(b),
    ensures
        pbool(s, i) == Option::Some((b, i + ser_bool(b).len() as int)),
{
    reveal_strlit("true");
    reveal_strlit("false");
    let bl = ser_bool(b).len() as int;
    if b {
        assert(lit_at(s, i, "true"@));
    } else {
        assert(s[i] == 'f') by {
            assert(s.subrange(i, i + bl)[0] == s[i]);
        }
        assert(!lit_at(s, i, "true"@)) by {
            if lit_at(s, i, "true"@) {
                assert(s.subrange(i, i + 4)[0] == s[i]);
            }
        }
        assert(lit_at(s, i, "false"@));
    }
}

/// Reads one character of `s` out of a known one-element subrange.
proof fn lemma_char_at(s: Seq<char>, a: int, c: char)
    requires
        0 <= a,
        a + 1 <= s.len(),
        s.subrange(a, a + 1) == seq![c],
    ensures
        s[a] == c,
{
    assert(s.subrange(a, a + 1)[0] == s[a]);
}

/// The six field keys written by the serializer, as plain character runs.
proof fn lemma_keys()
    ensures
        ser_qstr("name"@) == seq!['"', 'n', 'a', 'm', 'e', '"'],
        ser_qstr("pattern"@) == seq!['"', 'p', 'a', 't', 't', 'e', 'r', 'n', '"'],
        ser_qstr("url"@) == seq!['"', 'u', 'r', 'l', '"'],
        ser_qstr("icon"@) == seq!['"', 'i', 'c', 'o', 'n', '"'],
        ser_qstr("enabled"@) == seq!['"', 'e', 'n', 'a', 'b', 'l', 'e', 'd', '"'],
        ser_qstr("iconSourceIndex"@) == seq![
            '"',
            'i',
            'c',
            'o',
            'n',
            'S',
            'o',
            'u',
            'r',
            'c',
            'e',
            'I',
            'n',
            'd',
            'e',
            'x',
            '"',
        ],
        "icon"@ != "name"@,
        "enabled"@ != "pattern"@,
{
    reveal_strlit("name");
    reveal_strlit("pattern");
    reveal_strlit("url");
    reveal_strlit("icon");
    reveal_strlit("enabled");
    reveal_strlit("iconSourceIndex");
    lemma_ser_str_plain("name"@);
    lemma_ser_str_plain("pattern"@);
    lemma_ser_str_plain("url"@);
    lemma_ser_str_plain("icon"@);
    lemma_ser_str_plain("enabled"@);
    lemma_ser_str_plain("iconSourceIndex"@);
    assert(ser_qstr("name"@) =~= seq!['"', 'n', 'a', 'm', 'e', '"']);
    assert(ser_qstr("pattern"@) =~= seq!['"', 'p', 'a', 't', 't', 'e', 'r', 'n', '"']);
    assert(ser_qstr("url"@) =~= seq!['"', 'u', 'r', 'l', '"']);
    assert(ser_qstr("icon"@) =~= seq!['"', 'i', 'c', 'o', 'n', '"']);
    assert(ser_qstr("enabled"@) =~= seq!['"', 'e', 'n', 'a', 'b', 'l', 'e', 'd', '"']);
    assert(ser_qstr("iconSourceIndex"@) =~= seq![
        '"',
        'i',
        'c',
        'o',
        'n',
        'S',
        'o',
        'u',
        'r',
        'c',
        'e',
        'I',
        'n',
        'd',
        'e',
        'x',
        '"',
    ]);
    if "icon"@ == "name"@ {
        assert("icon"@[0] == "name"@[0]);
    }
    if "enabled"@ == "pattern"@ {
        assert("enabled"@[0] == "pattern"@[0]);
    }
}

/// Positions and characters of a full record's frame.
#[verifier::rlimit(100)]
proof fn lemma_rule_frame(rv: RuleV, s: Seq<char>, i: int)
    requires
        0 <= i,
        i + ser_rule(rv).len() <= s.len(),
        s.subrange(i, i + ser_rule(rv).len() as int) == ser_rule(rv),
    ensures
        ({
            let o2 = i + 8 + ser_qstr(rv.name).len() as int;
            let o4 = o2 + 11 + ser_qstr(rv.pattern).len() as int;
            let o6 = o4 + 7 + ser_qstr(rv.url).len() as int;
            let o8 = o6 + 8 + ser_qstr(rv.icon).len() as int;
            let o10 = o8 + 11 + ser_bool(rv.enabled).len() as int;
            let o12 = o10 + 19 + dec_digits(rv.icon_source_index as nat).len() as int;
            &&& i + ser_rule(rv).len() == o12 + 1
            &&& s[i] == '{'
            &&& pstring(s, i + 1) == Option::Some(("name"@, i + 7))
            &&& s[i + 7] == ':'
            &&& pstring(s, i + 8) == Option::Some((rv.name, o2))
            &&& s[o2] == ','
            &&& pstring(s, o2 + 1) == Option::Some(("pattern"@, o2 + 10))
            &&& s[o2 + 10] == ':'
            &&& pstring(s, o2 + 11) == Option::Some((rv.pattern, o4))
            &&& s[o4] == ','
            &&& pstring(s, o4 + 1) == Option::Some(("url"@, o4 + 6))
            &&& s[o4 + 6] == ':'
            &&& pstring(s, o4 + 7) == Option::Some((rv.url, o6))
            &&& s[o6] == ','
            &&& pstring(s, o6 + 1) == Option::Some(("icon"@, o6 + 7))
            &&& s[o6 + 7] == ':'
            &&& pstring(s, o6 + 8) == Option::Some((rv.icon, o8))
            &&& s[o8] == ','
            &&& pstring(s, o8 + 1) == Option::Some(("enabled"@, o8 + 10))
            &&& s[o8 + 10] == ':'
            &&& pbool(s, o8 + 11) == Option::Some((rv.enabled, o10))
            &&& s[o10] == ','
            &&& pstring(s, o10 + 1) == Option::Some(("iconSourceIndex"@, o10 + 18))
            &&& s[o10 + 18] == ':'
            &&& pu32(s, o10 + 19) == Option::Some((rv.icon_source_index, o12))
            &&& s[o12] == '}'
            &&& (s[o8 + 11] == 't' || s[o8 + 11] == 'f')
            &&& is_digit(s[o10 + 19])
        }),
{
    reveal_strlit("{\"name\":");
    reveal_strlit(",\"pattern\":");
    reveal_strlit(",\"url\":");
    reveal_strlit(",\"icon\":");
    reveal_strlit(",\"enabled\":");
    reveal_strlit(",\"iconSourceIndex\":");
    lemma_keys();
    let k1 = "{\"name\":"@;
    let k2 = ",\"pattern\":"@;
    let k3 = ",\"url\":"@;
    let k4 = ",\"icon\":"@;
    let k5 = ",\"enabled\":"@;
    let k6 = ",\"iconSourceIndex\":"@;
    assert(k1 =~= seq!['{', '"', 'n', 'a', 'm', 'e', '"', ':']);
    assert(k2 =~= seq![',', '"', 'p', 'a', 't', 't', 'e', 'r', 'n', '"', ':']);
    assert(k3 =~= seq![',', '"', 'u', 'r', 'l', '"', ':']);
    assert(k4 =~= seq![',', '"', 'i', 'c', 'o', 'n', '"', ':']);
    assert(k5 =~= seq![',', '"', 'e', 'n', 'a', 'b', 'l', 'e', 'd', '"', ':']);
    assert(k6 =~= seq![
        ',',
        '"',
        'i',
        'c',
        'o',
        'n',
        'S',
        'o',
        'u',
        'r',
        'c',
        'e',
        'I',
        'n',
        'd',
        'e',
        'x',
        '"',
        ':',
    ]);
    let q1 = ser_qstr(rv.name);
    let q2 = ser_qstr(rv.pattern);
    let q3 = ser_qstr(rv.url);
    let q4 = ser_qstr(rv.icon);
    let bl = ser_bool(rv.enabled);
    let dd = dec_digits(rv.icon_source_index as nat);
    let p13 = seq!['}'];
    let r12 = dd + p13;
    let r11 = k6 + r12;
    let r10 = bl + r11;
    let r9 = k5 + r10;
    let r8 = q4 + r9;
    let r7 = k4 + r8;
    let r6 = q3 + r7;
    let r5 = k3 + r6;
    let r4 = q2 + r5;
    let r3 = k2 + r4;
    let r2 = q1 + r3;
    assert(ser_rule(rv) =~= k1 + r2);
    let end = i + ser_rule(rv).len() as int;
    let o1 = i + 8;
    lemma_peel(s, i, end, k1, r2);
    let o2 = o1 + q1.len() as int;
    lemma_peel(s, o1, end, q1, r3);
    let o3 = o2 + 11;
    lemma_peel(s, o2, end, k2, r4);
    let o4 = o3 + q2.len() as int;
    lemma_peel(s, o3, end, q2, r5);
    let o5 = o4 + 7;
    lemma_peel(s, o4, end, k3, r6);
    let o6 = o5 + q3.len() as int;
    lemma_peel(s, o5, end, q3, r7);
    let o7 = o6 + 8;
    lemma_peel(s, o6, end, k4, r8);
    let o8 = o7 + q4.len() as int;
    lemma_peel(s, o7, end, q4, r9);
    let o9 = o8 + 11;
    lemma_peel(s, o8, end, k5, r10);
    let o10 = o9 + bl.len() as int;
    lemma_peel(s, o9, end, bl, r11);
    let o11 = o10 + 19;
    lemma_peel(s, o10, end, k6, r12);
    let o12 = o11 + dd.len() as int;
    lemma_peel(s, o11, end, dd, p13);
    lemma_char_at(s, o12, '}');
    assert(k1 =~= seq!['{'] + (ser_qstr("name"@) + seq![':']));
    assert(k2 =~= seq![','] + (ser_qstr("pattern"@) + seq![':']));
    assert(k3 =~= seq![','] + (ser_qstr("url"@) + seq![':']));
    assert(k4 =~= seq![','] + (ser_qstr("icon"@) + seq![':']));
    assert(k5 =~= seq![','] + (ser_qstr("enabled"@) + seq![':']));
    assert(k6 =~= seq![','] + (ser_qstr("iconSourceIndex"@) + seq![':']));
    lemma_peel(s, i, o1, seq!['{'], ser_qstr("name"@) + seq![':']);
    lemma_peel(s, i + 1, o1, ser_qstr("name"@), seq![':']);
    lemma_char_at(s, i, '{');
    lemma_char_at(s, i + 7, ':');
    lemma_peel(s, o2, o3, seq![','], ser_qstr("pattern"@) + seq![':']);
    lemma_peel(s, o2 + 1, o3, ser_qstr("pattern"@), seq![':']);
    lemma_char_at(s, o2, ',');
    lemma_char_at(s, o2 + 10, ':');
    lemma_peel(s, o4, o5, seq![','], ser_qstr("url"@) + seq![':']);
    lemma_peel(s, o4 + 1, o5, ser_qstr("url"@), seq![':']);
    lemma_char_at(s, o4, ',');
    lemma_char_at(s, o4 + 6, ':');
    lemma_peel(s, o6, o7, seq![','], ser_qstr("icon"@) + seq![':']);
    lemma_peel(s, o6 + 1, o7, ser_qstr("icon"@), seq![':']);
    lemma_char_at(s, o6, ',');
    lemma_char_at(s, o6 + 7, ':');
    lemma_peel(s, o8, o9, seq![','], ser_qstr("enabled"@) + seq![':']);
    lemma_peel(s, o8 + 1, o9, ser_qstr("enabled"@), seq![':']);
    lemma_char_at(s, o8, ',');
    lemma_char_at(s, o8 + 10, ':');
    lemma_peel(s, o10, o11, seq![','], ser_qstr("iconSourceIndex"@) + seq![':']);
    lemma_peel(s, o10 + 1, o11, ser_qstr("iconSourceIndex"@), seq![':']);
    lemma_char_at(s, o10, ',');
    lemma_char_at(s, o10 + 18, ':');
    lemma_pstring_ser("name"@, s, i + 1);
    lemma_pstring_ser(rv.name, s, o1);
    lemma_pstring_ser("pattern"@, s, o2 + 1);
    lemma_pstring_ser(rv.pattern, s, o3);
    lemma_pstring_ser("url"@, s, o4 + 1);
    lemma_pstring_ser(rv.url, s, o5);
    lemma_pstring_ser("icon"@, s, o6 + 1);
    lemma_pstring_ser(rv.icon, s, o7);
    lemma_pstring_ser("enabled"@, s, o8 + 1);
    lemma_pbool_ser(rv.enabled, s, o9);
    lemma_pstring_ser("iconSourceIndex"@, s, o10 + 1);
    assert(!is_digit(s[o12]));
    lemma_pu32_ser(rv.icon_source_index, s, o11);
    assert(s[o9] == 't' || s[o9] == 'f') by {
        reveal_strlit("true");
        reveal_strlit("false");
        assert(s.subrange(o9, o10)[0] == s[o9]);
    }
    assert(is_digit(s[o11])) by {
        lemma_dec_digits(rv.icon_source_index as nat);
        assert(s.subrange(o11, o12)[0] == s[o11]);
    }
}

/// Field-list walk for a record holding all six fields in the serializer's
/// order.
proof fn lemma_rule_chain(s: Seq<char>, i: int, rv: RuleV, o2: int, o4: int, o6: int, o8: int, o10: int, o12: int)
    requires
        0 <= i,
        i + 8 < o2 < o4 < o6 < o8 < o10 < o12,
        o12 + 1 <= s.len(),
        pstring(s, i + 1) == Option::Some(("name"@, i + 7)),
        s[i + 7] == ':',
        pstring(s, i + 8) == Option::Some((rv.name, o2)),
        s[o2] == ',',
        pstring(s, o2 + 1) == Option::Some(("pattern"@, o2 + 10)),
        s[o2 + 10] == ':',
        o2 + 11 < o4,
        pstring(s, o2 + 11) == Option::Some((rv.pattern, o4)),
        s[o4] == ',',
        pstring(s, o4 + 1) == Option::Some(("url"@, o4 + 6)),
        s[o4 + 6] == ':',
        o4 + 7 < o6,
        pstring(s, o4 + 7) == Option::Some((rv.url, o6)),
        s[o6] == ',',
        pstring(s, o6 + 1) == Option::Some(("icon"@, o6 + 7)),
        s[o6 + 7] == ':',
        o6 + 8 < o8,
        pstring(s, o6 + 8) == Option::Some((rv.icon, o8)),
        s[o8] == ',',
        pstring(s, o8 + 1) == Option::Some(("enabled"@, o8 + 10)),
        s[o8 + 10] == ':',
        o8 + 11 < o10,
        s[o8 + 11] == 't' || s[o8 + 11] == 'f',
        pbool(s, o8 + 11) == Option::Some((rv.enabled, o10)),
        s[o10] == ',',
        pstring(s, o10 + 1) == Option::Some(("iconSourceIndex"@, o10 + 18)),
        s[o10 + 18] == ':',
        o10 + 19 < o12,
        is_digit(s[o10 + 19]),
        pu32(s, o10 + 19) == Option::Some((rv.icon_source_index, o12)),
        s[o12] == '}',
    ensures
        pfields(s, i + 1, prule_empty()) == Option::Some(
            (
                PRule {
                    name: Option::Some(rv.name),
                    pattern: Option::Some(rv.pattern),
                    url: Option::Some(rv.url),
                    icon: Option::Some(rv.icon),
                    enabled: Option::Some(rv.enabled),
                    icon_source_index: Option::Some(rv.icon_source_index),
                },
                o12 + 1,
            ),
        ),
{
    lemma_keys();
    let a0 = prule_empty();
    let a1 = PRule { name: Option::Some(rv.name), ..a0 };
    let a2 = PRule { pattern: Option::Some(rv.pattern), ..a1 };
    let a3 = PRule { url: Option::Some(rv.url), ..a2 };
    let a4 = PRule { icon: Option::Some(rv.icon), ..a3 };
    let a5 = PRule { enabled: Option::Some(rv.enabled), ..a4 };
    let a6 = PRule { icon_source_index: Option::Some(rv.icon_source_index), ..a5 };
    assert(s[i + 1] == '"' && s[i + 8] == '"' && s[o2 + 1] == '"' && s[o2 + 11] == '"' && s[o4 + 1]
        == '"' && s[o4 + 7] == '"' && s[o6 + 1] == '"' && s[o6 + 8] == '"' && s[o8 + 1] == '"'
        && s[o10 + 1] == '"');
    assert(!is_jws(s[o8 + 11]));
    assert(!is_jws(s[o10 + 19]));
    assert(pfields(s, i + 1, a0) == pfields(s, o2 + 1, a1));
    assert(pfields(s, o2 + 1, a1) == pfields(s, o4 + 1, a2));
    assert(pfields(s, o4 + 1, a2) == pfields(s, o6 + 1, a3));
    assert(pfields(s, o6 + 1, a3) == pfields(s, o8 + 1, a4));
    assert(pfields(s, o8 + 1, a4) == pfields(s, o10 + 1, a5));
    assert(pfields(s, o10 + 1, a5) == Option::Some((a6, o12 + 1)));
}

/// A serialized rule record parses back to exactly the same rule.
proof fn lemma_prule_ser(rv: RuleV, s: Seq<char>, i: int)
    requires
        0 <= i,
        i + ser_rule(rv).len() <= s.len(),
        s.subrange(i, i + ser_rule(rv).len() as int) == ser_rule(rv),
    ensures
        prule(s, i) == Option::Some((rv, i + ser_rule(rv).len() as int)),
{
    lemma_rule_frame(rv, s, i);
    let o2 = i + 8 + ser_qstr(rv.name).len() as int;
    let o4 = o2 + 11 + ser_qstr(rv.pattern).len() as int;
    let o6 = o4 + 7 + ser_qstr(rv.url).len() as int;
    let o8 = o6 + 8 + ser_qstr(rv.icon).len() as int;
    let o10 = o8 + 11 + ser_bool(rv.enabled).len() as int;
    let o12 = o10 + 19 + dec_digits(rv.icon_source_index as nat).len() as int;
    assert(ser_bool(rv.enabled).len() >= 4) by {
        reveal_strlit("true");
        reveal_strlit("false");
    }
    assert(dec_digits(rv.icon_source_index as nat).len() >= 1) by {
        lemma_dec_digits(rv.icon_source_index as nat);
    }
    lemma_rule_chain(s, i, rv, o2, o4, o6, o8, o10, o12);
    assert(pws(s, i) == i);
    assert(prule(s, i) == Option::Some((rv, o12 + 1)));
}

/// A serialized array body followed by the closing bracket parses back to
/// exactly the original records, appended to the accumulator.
proof fn lemma_pelems_ser(rs: Seq<RuleV>, acc: Seq<RuleV>, s: Seq<char>, i: int)
    requires
        rs.len() >= 1,
        0 <= i,
        i + ser_arr(rs).len() + 1 <= s.len(),
        s.subrange(i, i + ser_arr(rs).len() as int) == ser_arr(rs),
        s[i + ser_arr(rs).len()] == ']',
    ensures
        pelems(s, i, acc) == Option::Some((acc + rs, i + ser_arr(rs).len() + 1)),
    decreases rs.len(),
{
    if rs.len() == 1 {
        assert(ser_arr(rs) == ser_rule(rs[0]));
        lemma_prule_ser(rs[0], s, i);
        let j = i + ser_rule(rs[0]).len() as int;
        assert(pws(s, j) == j);
        assert(pelems(s, i, acc) == Option::Some((acc.push(rs[0]), j + 1)));
        assert(acc.push(rs[0]) =~= acc + rs);
    } else {
        let rest = ser_arr(rs.drop_first());
        assert(ser_arr(rs) == ser_rule(rs[0]) + seq![','] + rest);
        assert(ser_arr(rs) =~= ser_rule(rs[0]) + (seq![','] + rest));
        let end = i + ser_arr(rs).len() as int;
        lemma_peel(s, i, end, ser_rule(rs[0]), seq![','] + rest);
        let j = i + ser_rule(rs[0]).len() as int;
        lemma_peel(s, j, end, seq![','], rest);
        lemma_char_at(s, j, ',');
        lemma_prule_ser(rs[0], s, i);
        assert(pws(s, j) == j);
        lemma_pelems_ser(rs.drop_first(), acc.push(rs[0]), s, j + 1);
        assert(pelems(s, i, acc) == pelems(s, j + 1, acc.push(rs[0])));
        assert(acc.push(rs[0]) + rs.drop_first() =~= acc + rs);
        assert(j + 1 + rest.len() + 1 == i + ser_arr(rs).len() + 1);
    }
}

/// Positions and characters of the document frame around the array body.
proof fn lemma_doc_frame(rs: Seq<RuleV>)
    ensures
        ser_doc(rs).len() == 12 + ser_arr(rs).len(),
        ser_doc(rs)[0] == '{',
        pstring(ser_doc(rs), 1) == Option::Some(("rules"@, 8int)),
        ser_doc(rs)[8] == ':',
        ser_doc(rs)[9] == '[',
        ser_doc(rs).subrange(10, 10 + ser_arr(rs).len() as int) == ser_arr(rs),
        ser_doc(rs)[10 + ser_arr(rs).len() as int] == ']',
        ser_doc(rs)[11 + ser_arr(rs).len() as int] == '}',
        rs.len() > 0 ==> ser_doc(rs)[10] == '{',
{
    reveal_strlit("{\"rules\":[");
    reveal_strlit("]}");
    lemma_keys_doc();
    let head = "{\"rules\":["@;
    let tail = "]}"@;
    assert(head =~= seq!['{', '"', 'r', 'u', 'l', 'e', 's', '"', ':', '[']);
    assert(tail =~= seq![']', '}']);
    let s = ser_doc(rs);
    let al = ser_arr(rs).len() as int;
    let end = s.len() as int;
    assert(end == 10 + al + 2);
    assert(s =~= head + (ser_arr(rs) + tail));
    assert(s.subrange(0, end) =~= s);
    lemma_peel(s, 0, end, head, ser_arr(rs) + tail);
    lemma_peel(s, 10, end, ser_arr(rs), tail);
    assert(tail =~= seq![']'] + seq!['}']);
    lemma_peel(s, 10 + al, end, seq![']'], seq!['}']);
    lemma_char_at(s, 10 + al, ']');
    lemma_char_at(s, 10 + al + 1, '}');
    assert(head =~= seq!['{'] + (ser_qstr("rules"@) + seq![':', '[']));
    lemma_peel(s, 0, 10, seq!['{'], ser_qstr("rules"@) + seq![':', '[']);
    lemma_peel(s, 1, 10, ser_qstr("rules"@), seq![':', '[']);
    assert(seq![':', '['] =~= seq![':'] + seq!['[']);
    lemma_peel(s, 8, 10, seq![':'], seq!['[']);
    lemma_char_at(s, 0, '{');
    lemma_char_at(s, 8, ':');
    lemma_char_at(s, 9, '[');
    lemma_pstring_ser("rules"@, s, 1);
    if rs.len() > 0 {
        assert(s[10] == '{') by {
            assert(ser_rule(rs[0])[0] == '{') by {
                reveal_strlit("{\"name\":");
                assert(ser_rule(rs[0]).len() >= 8);
                assert("{\"name\":"@[0] == '{');
            }
            assert(ser_arr(rs)[0] == ser_rule(rs[0])[0]);
            assert(s.subrange(10, 10 + al)[0] == s[10]);
        }
    }
}

/// The serializer's document text parses back to exactly the list it was
/// written from.
#[verifier::rlimit(100)]
proof fn lemma_parse_doc_ser(rs: Seq<RuleV>)
    ensures
        parse_doc(ser_doc(rs)) == Option::Some(rs),
{
    lemma_doc_frame(rs);
    let s = ser_doc(rs);
    let al = ser_arr(rs).len() as int;
    let end = s.len() as int;
    assert(pws(s, 0) == 0);
    assert(pws(s, 1) == 1);
    assert(pws(s, 8) == 8);
    assert(pws(s, 9) == 9);
    if rs.len() == 0 {
        assert(ser_arr(rs).len() == 0);
        assert(s[10] == ']');
        assert(pws(s, 10) == 10);
        assert(parray(s, 9) == Option::Some((Seq::<RuleV>::empty(), 11int)));
        assert(pws(s, 11) == 11);
        assert(s[11] == '}');
        assert(pws(s, 12) == 12);
        assert(parse_doc(s) == Option::Some(Seq::<RuleV>::empty()));
        assert(Seq::<RuleV>::empty() =~= rs);
    } else {
        assert(s[10] == '{');
        assert(pws(s, 10) == 10);
        lemma_pelems_ser(rs, Seq::<RuleV>::empty(), s, 10);
        assert(Seq::<RuleV>::empty() + rs =~= rs);
        assert(parray(s, 9) == Option::Some((rs, 10 + al + 1)));
        assert(pws(s, 10 + al + 1) == 10 + al + 1);
        assert(s[10 + al + 1] == '}');
        assert(pws(s, 10 + al + 2) == end);
        assert(parse_doc(s) == Option::Some(rs));
    }
}

/// Character facts about the document frame.
proof fn lemma_keys_doc()
    ensures
        ser_qstr("rules"@) == seq!['"', 'r', 'u', 'l', 'e', 's', '"'],
{
    reveal_strlit("rules");
    lemma_ser_str_plain("rules"@);
    assert(ser_qstr("rules"@) =~= seq!['"', 'r', 'u', 'l', 'e', 's', '"']);
}

/// A rule record that omits the optional fields: only `name`, `pattern`,
/// `url` and `icon` are written.
pub open spec fn ser_rule_minimal(
    name: Seq<char>,
    pattern: Seq<char>,
    url: Seq<char>,
    icon: Seq<char>,
) -> Seq<char> {
    "{\"name\":"@ + ser_qstr(name) + ",\"pattern\":"@ + ser_qstr(pattern) + ",\"url\":"@
        + ser_qstr(url) + ",\"icon\":"@ + ser_qstr(icon) + seq!['}']
}

/// Field-list walk for a record holding exactly the four required fields.
proof fn lemma_min_chain(
    s: Seq<char>,
    i: int,
    name: Seq<char>,
    pattern: Seq<char>,
    url: Seq<char>,
    icon: Seq<char>,
    o2: int,
    o4: int,
    o6: int,
    o8: int,
)
    requires
        0 <= i,
        i + 8 < o2 < o4 < o6 < o8,
        o8 + 1 <= s.len(),
        pstring(s, i + 1) == Option::Some(("name"@, i + 7)),
        s[i + 7] == ':',
        pstring(s, i + 8) == Option::Some((name, o2)),
        s[o2] == ',',
        pstring(s, o2 + 1) == Option::Some(("pattern"@, o2 + 10)),
        s[o2 + 10] == ':',
        o2 + 11 < o4,
        pstring(s, o2 + 11) == Option::Some((pattern, o4)),
        s[o4] == ',',
        pstring(s, o4 + 1) == Option::Some(("url"@, o4 + 6)),
        s[o4 + 6] == ':',
        o4 + 7 < o6,
        pstring(s, o4 + 7) == Option::Some((url, o6)),
        s[o6] == ',',
        pstring(s, o6 + 1) == Option::Some(("icon"@, o6 + 7)),
        s[o6 + 7] == ':',
        o6 + 8 < o8,
        pstring(s, o6 + 8) == Option::Some((icon, o8)),
        s[o8] == '}',
    ensures
        pfields(s, i + 1, prule_empty()) == Option::Some(
            (
                PRule {
                    name: Option::Some(name),
                    pattern: Option::Some(pattern),
                    url: Option::Some(url),
                    icon: Option::Some(icon),
                    enabled: Option::None,
                    icon_source_index: Option::None,
                },
                o8 + 1,
            ),
        ),
{
    lemma_keys();
    let a0 = prule_empty();
    let a1 = PRule { name: Option::Some(name), ..a0 };
    let a2 = PRule { pattern: Option::Some(pattern), ..a1 };
    let a3 = PRule { url: Option::Some(url), ..a2 };
    let a4 = PRule { icon: Option::Some(icon), ..a3 };
    assert(s[i + 1] == '"' && s[i + 8] == '"' && s[o2 + 1] == '"' && s[o2 + 11] == '"' && s[o4 + 1]
        == '"' && s[o4 + 7] == '"' && s[o6 + 1] == '"' && s[o6 + 8] == '"');
    assert(pfields(s, i + 1, a0) == pfields(s, o2 + 1, a1));
    assert(pfields(s, o2 + 1, a1) == pfields(s, o4 + 1, a2));
    assert(pfields(s, o4 + 1, a2) == pfields(s, o6 + 1, a3));
    assert(pfields(s, o6 + 1, a3) == Option::Some((a4, o8 + 1)));
}

/// Positions and characters of a minimal record's frame.
#[verifier::rlimit(100)]
proof fn lemma_min_frame(
    name: Seq<char>,
    pattern: Seq<char>,
    url: Seq<char>,
    icon: Seq<char>,
    s: Seq<char>,
    i: int,
)
    requires
        0 <= i,
        i + ser_rule_minimal(name, pattern, url, icon).len() <= s.len(),
        s.subrange(i, i + ser_rule_minimal(name, pattern, url, icon).len() as int)
            == ser_rule_minimal(name, pattern, url, icon),
    ensures
        ({
            let o2 = i + 8 + ser_qstr(name).len() as int;
            let o4 = o2 + 11 + ser_qstr(pattern).len() as int;
            let o6 = o4 + 7 + ser_qstr(url).len() as int;
            let o8 = o6 + 8 + ser_qstr(icon).len() as int;
            &&& i + ser_rule_minimal(name, pattern, url, icon).len() == o8 + 1
            &&& s[i] == '{'
            &&& pstring(s, i + 1) == Option::Some(("name"@, i + 7))
            &&& s[i + 7] == ':'
            &&& pstring(s, i + 8) == Option::Some((name, o2))
            &&& s[o2] == ','
            &&& pstring(s, o2 + 1) == Option::Some(("pattern"@, o2 + 10))
            &&& s[o2 + 10] == ':'
            &&& pstring(s, o2 + 11) == Option::Some((pattern, o4))
            &&& s[o4] == ','
            &&& pstring(s, o4 + 1) == Option::Some(("url"@, o4 + 6))
            &&& s[o4 + 6] == ':'
            &&& pstring(s, o4 + 7) == Option::Some((url, o6))
            &&& s[o6] == ','
            &&& pstring(s, o6 + 1) == Option::Some(("icon"@, o6 + 7))
            &&& s[o6 + 7] == ':'
            &&& pstring(s, o6 + 8) == Option::Some((icon, o8))
            &&& s[o8] == '}'
        }),
{
    reveal_strlit("{\"name\":");
    reveal_strlit(",\"pattern\":");
    reveal_strlit(",\"url\":");
    reveal_strlit(",\"icon\":");
    lemma_keys();
    let k1 = "{\"name\":"@;
    let k2 = ",\"pattern\":"@;
    let k3 = ",\"url\":"@;
    let k4 = ",\"icon\":"@;
    assert(k1 =~= seq!['{', '"', 'n', 'a', 'm', 'e', '"', ':']);
    assert(k2 =~= seq![',', '"', 'p', 'a', 't', 't', 'e', 'r', 'n', '"', ':']);
    assert(k3 =~= seq![',', '"', 'u', 'r', 'l', '"', ':']);
    assert(k4 =~= seq![',', '"', 'i', 'c', 'o', 'n', '"', ':']);
    let q1 = ser_qstr(name);
    let q2 = ser_qstr(pattern);
    let q3 = ser_qstr(url);
    let q4 = ser_qstr(icon);
    let p9 = seq!['}'];
    let r8 = q4 + p9;
    let r7 = k4 + r8;
    let r6 = q3 + r7;
    let r5 = k3 + r6;
    let r4 = q2 + r5;
    let r3 = k2 + r4;
    let r2 = q1 + r3;
    assert(ser_rule_minimal(name, pattern, url, icon) =~= k1 + r2);
    let end = i + ser_rule_minimal(name, pattern, url, icon).len() as int;
    let o1 = i + 8;
    lemma_peel(s, i, end, k1, r2);
    let o2 = o1 + q1.len() as int;
    lemma_peel(s, o1, end, q1, r3);
    let o3 = o2 + 11;
    lemma_peel(s, o2, end, k2, r4);
    let o4 = o3 + q2.len() as int;
    lemma_peel(s, o3, end, q2, r5);
    let o5 = o4 + 7;
    lemma_peel(s, o4, end, k3, r6);
    let o6 = o5 + q3.len() as int;
    lemma_peel(s, o5, end, q3, r7);
    let o7 = o6 + 8;
    lemma_peel(s, o6, end, k4, r8);
    let o8 = o7 + q4.len() as int;
    lemma_peel(s, o7, end, q4, p9);
    lemma_char_at(s, o8, '}');
    assert(k1 =~= seq!['{'] + (ser_qstr("name"@) + seq![':']));
    assert(k2 =~= seq![','] + (ser_qstr("pattern"@) + seq![':']));
    assert(k3 =~= seq![','] + (ser_qstr("url"@) + seq![':']));
    assert(k4 =~= seq![','] + (ser_qstr("icon"@) + seq![':']));
    lemma_peel(s, i, o1, seq!['{'], ser_qstr("name"@) + seq![':']);
    lemma_peel(s, i + 1, o1, ser_qstr("name"@), seq![':']);
    lemma_char_at(s, i, '{');
    lemma_char_at(s, i + 7, ':');
    lemma_peel(s, o2, o3, seq![','], ser_qstr("pattern"@) + seq![':']);
    lemma_peel(s, o2 + 1, o3, ser_qstr("pattern"@), seq![':']);
    lemma_char_at(s, o2, ',');
    lemma_char_at(s, o2 + 10, ':');
    lemma_peel(s, o4, o5, seq![','], ser_qstr("url"@) + seq![':']);
    lemma_peel(s, o4 + 1, o5, ser_qstr("url"@), seq![':']);
    lemma_char_at(s, o4, ',');
    lemma_char_at(s, o4 + 6, ':');
    lemma_peel(s, o6, o7, seq![','], ser_qstr("icon"@) + seq![':']);
    lemma_peel(s, o6 + 1, o7, ser_qstr("icon"@), seq![':']);
    lemma_char_at(s, o6, ',');
    lemma_char_at(s, o6 + 7, ':');
    lemma_pstring_ser("name"@, s, i + 1);
    lemma_pstring_ser(name, s, o1);
    lemma_pstring_ser("pattern"@, s, o2 + 1);
    lemma_pstring_ser(pattern, s, o3);
    lemma_pstring_ser("url"@, s, o4 + 1);
    lemma_pstring_ser(url, s, o5);
    lemma_pstring_ser("icon"@, s, o6 + 1);
    lemma_pstring_ser(icon, s, o7);
}

/// Missing optional fields take their defaults: a persisted record without
/// `enabled` or `iconSourceIndex` reads back with `enabled` true and
/// `iconSourceIndex` 0, whatever the other fields hold.
pub proof fn lemma_missing_fields_default(
    name: Seq<char>,
    pattern: Seq<char>,
    url: Seq<char>,
    icon: Seq<char>,
)
    ensures
        prule(ser_rule_minimal(name, pattern, url, icon), 0) == Option::Some(
            (
                RuleV { name, pattern, url, icon, enabled: true, icon_source_index: 0 },
                ser_rule_minimal(name, pattern, url, icon).len() as int,
            ),
        ),
{
    let s = ser_rule_minimal(name, pattern, url, icon);
    assert(s.subrange(0, s.len() as int) =~= s);
    lemma_min_frame(name, pattern, url, icon, s, 0);
    let o2 = 8 + ser_qstr(name).len() as int;
    let o4 = o2 + 11 + ser_qstr(pattern).len() as int;
    let o6 = o4 + 7 + ser_qstr(url).len() as int;
    let o8 = o6 + 8 + ser_qstr(icon).len() as int;
    lemma_min_chain(s, 0, name, pattern, url, icon, o2, o4, o6, o8);
    assert(pws(s, 0) == 0);
    assert(prule(s, 0) == Option::Some(
        (RuleV { name, pattern, url, icon, enabled: true, icon_source_index: 0 }, o8 + 1),
    ));
}

/// Round trip: saving any rule list and loading the result gives back the
/// same list, every field and the order preserved exactly.
pub proof fn lemma_save_load_round_trip(rs: Seq<RuleV>)
    ensures
        parse_doc(ser_doc(rs)) == Option::Some(rs),
{
    lemma_parse_doc_ser(rs);
}

} // verus!

//! Text normalizer: collapses captured raw text into a canonical
//! single-line, whitespace-normalized string.

use vstd::prelude::*;

use crate::chars::{chars_of, is_ws, is_ws_char, push_char};

verus! {

/// One left-to-right pass over the remaining input. `seen` records whether a
/// word character has been emitted already, `pend` whether whitespace has
/// been read since the last word character; a single ASCII space is emitted
/// between words, nothing at the ends.
pub open spec fn norm_rec(s: Seq<char>, seen: bool, pend: bool) -> Seq<char>
    decreases s.len(),
{
    if s.len() == 0 {
        Seq::empty()
    } else if is_ws(s[0]) {
        norm_rec(s.drop_first(), seen, true)
    } else {
        (if seen && pend {
            seq![' ']
        } else {
            Seq::empty()
        }) + seq![s[0]] + norm_rec(s.drop_first(), true, false)
    }
}

/// The canonical whitespace-normalized form of a string: words joined by
/// single spaces, no leading or trailing whitespace.
pub open spec fn normalize_spec(s: Seq<char>) -> Seq<char> {
    norm_rec(s, false, false)
}

/// A string is in normal form if every whitespace character in it is a
/// single ASCII space, no two whitespace characters are adjacent, and it
/// does not end in whitespace.
pub open spec fn wsp_normal(s: Seq<char>) -> bool {
    &&& forall|i: int| 0 <= i < s.len() && #[trigger] is_ws(s[i]) ==> s[i] == ' '
    &&& forall|i: int|
        0 <= i < s.len() - 1 ==> !(#[trigger] is_ws(s[i]) && is_ws(s[i + 1]))
    &&& (s.len() > 0 ==> !is_ws(s[s.len() - 1]))
}

/// Normalization always produces a string in normal form, and one that does
/// not start with whitespace unless a word was already open.
proof fn lemma_norm_rec_normal(s: Seq<char>, seen: bool, pend: bool)
    ensures
        wsp_normal(norm_rec(s, seen, pend)),
        !seen && norm_rec(s, seen, pend).len() > 0 ==> !is_ws(norm_rec(s, seen, pend)[0]),
    decreases s.len(),
{
    if s.len() == 0 {
    } else if is_ws(s[0]) {
        lemma_norm_rec_normal(s.drop_first(), seen, true);
    } else {
        lemma_norm_rec_normal(s.drop_first(), true, false);
        let pre: Seq<char> = if seen && pend {
            seq![' ']
        } else {
            Seq::empty()
        };
        let o2 = norm_rec(s.drop_first(), true, false);
        let o = pre + seq![s[0]] + o2;
        assert forall|i: int| 0 <= i < o.len() implies o[i] == (if i < pre.len() {
            ' '
        } else if i == pre.len() {
            s[0]
        } else {
            o2[i - pre.len() - 1]
        }) by {}
        assert(wsp_normal(o)) by {
            assert forall|i: int| 0 <= i < o.len() && #[trigger] is_ws(o[i]) implies o[i]
                == ' ' by {}
            assert forall|i: int| 0 <= i < o.len() - 1 implies !(#[trigger] is_ws(o[i]) && is_ws(
                o[i + 1],
            )) by {}
            assert(o.len() > 0 ==> !is_ws(o[o.len() - 1]));
        }
    }
}

/// On input already in normal form, a pass that has an open word and no
/// pending whitespace reproduces the input exactly.
proof fn lemma_norm_rec_id(s: Seq<char>)
    requires
        wsp_normal(s),
    ensures
        norm_rec(s, true, false) == s,
    decreases s.len(),
{
    if s.len() == 0 {
        assert(norm_rec(s, true, false) =~= s);
    } else if is_ws(s[0]) {
        assert(s.len() >= 2 && !is_ws(s[1]));
        assert(wsp_normal(s.drop_first()));
        lemma_norm_rec_id_pend(s.drop_first());
        assert(norm_rec(s, true, false) =~= s);
    } else {
        assert(wsp_normal(s.drop_first()));
        lemma_norm_rec_id(s.drop_first());
        assert(norm_rec(s, true, false) =~= s);
    }
}

/// The companion pass with pending whitespace: it re-emits the single space
/// that was consumed from the input, then the input itself.
proof fn lemma_norm_rec_id_pend(s: Seq<char>)
    requires
        wsp_normal(s),
        s.len() > 0 ==> !is_ws(s[0]),
    ensures
        norm_rec(s, true, true) == if s.len() == 0 {
            s
        } else {
            seq![' '] + s
        },
    decreases s.len(),
{
    if s.len() == 0 {
        assert(norm_rec(s, true, true) =~= s);
    } else {
        assert(wsp_normal(s.drop_first()));
        lemma_norm_rec_id(s.drop_first());
        assert(norm_rec(s, true, true) =~= seq![' '] + s);
    }
}

/// Normalization of a string that is already in normal form and does not
/// start with whitespace changes nothing.
pub proof fn lemma_normalize_of_normal(s: Seq<char>)
    requires
        wsp_normal(s),
        s.len() > 0 ==> !is_ws(s[0]),
    ensures
        normalize_spec(s) == s,
{
    if s.len() == 0 {
        assert(normalize_spec(s) =~= s);
    } else {
        lemma_norm_rec_id(s.drop_first());
        assert(normalize_spec(s) =~= s);
    }
}

/// Normalization is idempotent: normalizing a second time changes nothing.
pub proof fn lemma_normalize_idempotent(s: Seq<char>)
    ensures
        normalize_spec(normalize_spec(s)) == normalize_spec(s),
{
    lemma_norm_rec_normal(s, false, false);
    lemma_normalize_of_normal(normalize_spec(s));
}

/// Normalizes captured text: trims leading and trailing whitespace and
/// collapses every internal run of whitespace (spaces, tabs, line breaks)
/// into a single ASCII space.
pub fn process_selected_text(text: &str) -> (r: String)
    ensures
        r@ == normalize_spec(text@),
{
    let v = chars_of(text);
    let mut out = String::new();
    let mut seen: bool = false;
    let mut pend: bool = false;
    let mut i: usize = 0;
    proof {
        assert(v@.skip(0) =~= v@);
    }
    while i < v.len()
        invariant
            i <= v.len(),
            v@ == text@,
            normalize_spec(text@) == out@ + norm_rec(v@.skip(i as int), seen, pend),
        decreases v.len() - i,
    {
        let ghost rest = v@.skip(i as int);
        proof {
            assert(rest[0] == v@[i as int]);
            assert(v@.skip(i + 1) =~= rest.drop_first());
        }
        let c = v[i];
        if is_ws_char(c) {
            pend = true;
        } else {
            if seen && pend {
                push_char(&mut out, ' ');
            }
            push_char(&mut out, c);
            proof {
                assert(out@ + norm_rec(rest.drop_first(), true, false) =~= normalize_spec(
                    text@,
                ));
            }
            seen = true;
            pend = false;
        }
        i = i + 1;
    }
    proof {
        assert(v@.skip(v@.len() as int) =~= Seq::<char>::empty());
        assert(out@ + Seq::<char>::empty() =~= out@);
    }
    out
}

} // verus!

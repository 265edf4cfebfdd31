//! Proved laws of the matcher language.
//!
//! The central law is the round trip: serializing a well-formed component
//! sequence and re-parsing the result yields the same sequence, component
//! for component and in the same order.

use vstd::prelude::*;

use crate::model::{
    alnum_run_end, body_scan_end, classify_body, escape_seq, first_colon_from, frag, is_alnum,
    is_identifier, lemma_body_scan_end_bounds, parse_from, spec_parse, spec_resolved,
    spec_serialize, CompView,
};

verus! {

/// Whether position `k` of `s` starts a variable or regex-block marker.
pub open spec fn is_marker_at(s: Seq<char>, k: int) -> bool {
    0 <= k && k + 1 < s.len() && ((s[k] == '$' && s[k + 1] == '$') || (s[k] == '[' && s[k + 1]
        == '['))
}

/// Literal text that scans as itself: no marker pair inside it.
pub open spec fn text_ok(t: Seq<char>) -> bool {
    forall|k: int|
        0 <= k < t.len() - 1 ==> !((#[trigger] t[k]) == '$' && t[k + 1] == '$') && !(t[k] == '['
            && t[k + 1] == '[')
}

/// A raw regex body whose block scan runs exactly to the closing marker
/// that the serializer appends after it.
pub open spec fn body_ok(raw: Seq<char>) -> bool {
    body_scan_end(raw + seq![']', ']'], 0, 0) == raw.len()
}

/// The raw body a regex component was classified from.
pub open spec fn raw_of(c: CompView) -> Seq<char> {
    match c {
        CompView::Regex(p) => p,
        CompView::NamedRegex(n, p) => n + seq![':'] + p,
        _ => Seq::<char>::empty(),
    }
}

/// A regex component the scanner reads back as itself: its raw body scans
/// to the appended closing marker and is classified the same way again.
pub open spec fn regex_comp_ok(c: CompView) -> bool {
    (c is Regex || c is NamedRegex) && body_ok(raw_of(c)) && classify_body(raw_of(c)) == c
}

/// Whether every character of a variable name is alphanumeric.
pub open spec fn all_alnum(n: Seq<char>) -> bool {
    forall|k: int| 0 <= k < n.len() ==> is_alnum(#[trigger] n[k])
}

/// The component sequences the scanner reads back from their own
/// serialization.  They have the shape the scanner itself emits — each
/// variable or regex component immediately preceded by the text flushed at
/// its marker, a text at the end — with boundary conditions: text holds no
/// marker pair and does not end in the first character of the marker that
/// follows it, a variable's name is alphanumeric, and the text after a
/// variable does not start with an alphanumeric character that would
/// extend the name.
pub open spec fn wf_components(cs: Seq<CompView>) -> bool
    decreases cs.len(),
{
    if cs.len() == 0 {
        false
    } else {
        match cs[0] {
            CompView::Text(t) => text_ok(t) && (if cs.len() == 1 {
                true
            } else {
                match cs[1] {
                    CompView::Variable(n) => all_alnum(n) && (t.len() > 0 ==> t[t.len() - 1]
                        != '$') && (match cs[2] {
                        CompView::Text(t2) => t2.len() > 0 ==> !is_alnum(t2[0]),
                        _ => true,
                    }) && wf_components(cs.skip(2)),
                    _ => regex_comp_ok(cs[1]) && (t.len() > 0 ==> t[t.len() - 1] != '[')
                        && wf_components(cs.skip(2)),
                }
            }),
            _ => false,
        }
    }
}

proof fn lemma_text_scan(s: Seq<char>, i: int, j: int, pending: Seq<char>, acc: Seq<CompView>)
    requires
        0 <= i <= j <= s.len(),
        forall|k: int| i <= k < j ==> !is_marker_at(s, k),
    ensures
        parse_from(s, i, pending, acc) == parse_from(s, j, pending + s.subrange(i, j), acc),
    decreases j - i,
{
    if i == j {
        assert(pending + s.subrange(i, j) =~= pending);
    } else {
        assert(!is_marker_at(s, i));
        lemma_text_scan(s, i + 1, j, pending.push(s[i]), acc);
        assert(pending.push(s[i]) + s.subrange(i + 1, j) =~= pending + s.subrange(i, j));
    }
}

proof fn lemma_alnum_run_exact(s: Seq<char>, i: int, e: int)
    requires
        0 <= i <= e <= s.len(),
        forall|k: int| i <= k < e ==> is_alnum(#[trigger] s[k]),
        e < s.len() ==> !is_alnum(s[e]),
    ensures
        alnum_run_end(s, i) == e,
    decreases e - i,
{
    if i < e {
        lemma_alnum_run_exact(s, i + 1, e);
    }
}

proof fn lemma_body_scan_shift(w: Seq<char>, s: Seq<char>, p: int, j: int, level: int)
    requires
        0 <= j <= w.len(),
        0 <= p,
        p + w.len() <= s.len(),
        s.subrange(p, p + w.len() as int) == w,
        body_scan_end(w, j, level) < w.len(),
    ensures
        body_scan_end(s, p + j, level) == p + body_scan_end(w, j, level),
    decreases w.len() - j,
{
    let e = body_scan_end(w, j, level);
    lemma_body_scan_end_bounds(w, j, level);
    assert(w[j] == s.subrange(p, p + w.len() as int)[j]);
    if w[j] == ']' && j + 1 < w.len() && w[j + 1] == ']' && level == 0 {
        assert(w[j + 1] == s.subrange(p, p + w.len() as int)[j + 1]);
    } else {
        let next_level = if w[j] == '[' {
            level + 1
        } else if w[j] == ']' {
            level - 1
        } else {
            level
        };
        if j + 1 == w.len() {
            assert(body_scan_end(w, j + 1, next_level) == w.len());
            assert(false);
        }
        assert(w[j + 1] == s.subrange(p, p + w.len() as int)[j + 1]);
        lemma_body_scan_shift(w, s, p, j + 1, next_level);
    }
}

proof fn lemma_after_var_not_alnum(cs: Seq<CompView>)
    requires
        wf_components(cs),
        cs[0] matches CompView::Text(t) ==> (t.len() > 0 ==> !is_alnum(t[0])),
    ensures
        spec_serialize(cs).len() > 0 ==> !is_alnum(spec_serialize(cs)[0]),
{
    match cs[0] {
        CompView::Text(t) => {
            if t.len() > 0 {
                assert(spec_serialize(cs)[0] == t[0]);
            } else {
                assert(spec_serialize(cs) == frag(cs[0]) + spec_serialize(cs.drop_first()));
                assert(frag(cs[0]) =~= Seq::<char>::empty());
                if cs.len() == 1 {
                    assert(cs.drop_first() =~= Seq::<CompView>::empty());
                    assert(spec_serialize(cs.drop_first()) =~= Seq::<char>::empty());
                    assert(spec_serialize(cs) =~= Seq::<char>::empty());
                } else {
                    assert(cs.drop_first()[0] == cs[1]);
                    assert(spec_serialize(cs.drop_first()) == frag(cs[1]) + spec_serialize(
                        cs.drop_first().drop_first(),
                    ));
                    match cs[1] {
                        CompView::Variable(_) => {
                            assert(frag(cs[1])[0] == '$');
                            assert(!is_alnum('$'));
                        },
                        _ => {
                            assert(frag(cs[1])[0] == '[');
                            assert(!is_alnum('['));
                        },
                    }
                    assert(spec_serialize(cs)[0] == frag(cs[1])[0]);
                }
            }
        },
        _ => {},
    }
}

proof fn lemma_reparse_at(s: Seq<char>, i: int, acc: Seq<CompView>, cs: Seq<CompView>)
    requires
        wf_components(cs),
        0 <= i <= s.len(),
        s.subrange(i, s.len() as int) == spec_serialize(cs),
    ensures
        parse_from(s, i, Seq::<char>::empty(), acc) == acc + cs,
    decreases cs.len(),
{
    let rest = s.subrange(i, s.len() as int);
    assert(spec_serialize(cs) == frag(cs[0]) + spec_serialize(cs.drop_first()));
    assert(forall|k: int| 0 <= k < rest.len() ==> #[trigger] rest[k] == s[i + k]);
    match cs[0] {
        CompView::Text(t) => {
            if cs.len() == 1 {
                assert(cs.drop_first() =~= Seq::<CompView>::empty());
                assert(spec_serialize(cs.drop_first()) =~= Seq::<char>::empty());
                assert(rest =~= t);
                assert forall|k: int| i <= k < s.len() implies !is_marker_at(s, k) by {
                    if k + 1 < s.len() {
                        assert(s[k] == rest[k - i]);
                        assert(s[k + 1] == rest[k - i + 1]);
                        assert(!(t[k - i] == '$' && t[k - i + 1] == '$') && !(t[k - i] == '[' && t[k
                            - i + 1] == '['));
                    }
                }
                lemma_text_scan(s, i, s.len() as int, Seq::<char>::empty(), acc);
                assert(Seq::<char>::empty() + s.subrange(i, s.len() as int) =~= t);
                assert(parse_from(s, i, Seq::<char>::empty(), acc) == acc.push(cs[0]));
                assert(acc.push(cs[0]) =~= acc + cs);
            } else {
                match cs[1] {
                    CompView::Variable(n) => {
                        let f1 = frag(cs[1]);
                        assert(cs.drop_first()[0] == cs[1]);
                        assert(spec_serialize(cs.drop_first()) == frag(cs[1]) + spec_serialize(
                            cs.drop_first().drop_first(),
                        ));
                        assert(cs.drop_first().drop_first() =~= cs.skip(2));
                        let tail2 = spec_serialize(cs.skip(2));
                        assert(f1 =~= seq!['$', '$'] + n);
                        assert(f1.len() == 2 + n.len());
                        assert(rest =~= t + f1 + tail2);
                        assert(f1[0] == '$');
                        assert(f1[1] == '$');
                        let j = i + t.len();
                        assert(rest[j - i] == f1[0]);
                        assert(rest[j - i + 1] == f1[1]);
                        assert(s[j] == rest[j - i]);
                        assert(s[j + 1] == rest[j - i + 1]);
                        assert forall|k: int| i <= k < j implies !is_marker_at(s, k) by {
                            assert(s[k] == rest[k - i]);
                            assert(rest[k - i] == t[k - i]);
                            if k < j - 1 {
                                assert(s[k + 1] == rest[k - i + 1]);
                                assert(rest[k - i + 1] == t[k - i + 1]);
                                assert(!(t[k - i] == '$' && t[k - i + 1] == '$') && !(t[k - i]
                                    == '[' && t[k - i + 1] == '['));
                            } else {
                                assert(t[t.len() - 1] != '$');
                                assert(s[k + 1] == '$');
                            }
                        }
                        lemma_text_scan(s, i, j, Seq::<char>::empty(), acc);
                        assert(Seq::<char>::empty() + s.subrange(i, j) =~= t) by {
                            assert forall|k: int| 0 <= k < t.len() implies s.subrange(i, j)[k]
                                == t[k] by {
                                assert(s.subrange(i, j)[k] == s[i + k]);
                                assert(s[i + k] == rest[k]);
                                assert(rest[k] == t[k]);
                            }
                        }
                        let e = j + 2 + n.len();
                        assert forall|k: int| j + 2 <= k < e implies is_alnum(#[trigger] s[k]) by {
                            assert(s[k] == rest[k - i]);
                            assert(rest[k - i] == f1[k - j]);
                            assert(f1[k - j] == n[k - j - 2]);
                        }
                        assert(wf_components(cs.skip(2)));
                        assert(cs.skip(2).len() > 0);
                        assert(cs.skip(2)[0] == cs[2]);
                        if e < s.len() {
                            lemma_after_var_not_alnum(cs.skip(2));
                            assert(s[e] == rest[e - i]);
                            assert(rest[e - i] == tail2[0]);
                            assert(!is_alnum(s[e]));
                        }
                        lemma_alnum_run_exact(s, j + 2, e);
                        assert(s.subrange(j + 2, e) =~= n) by {
                            assert forall|k: int| 0 <= k < n.len() implies s.subrange(j + 2, e)[k]
                                == n[k] by {
                                assert(s.subrange(j + 2, e)[k] == s[j + 2 + k]);
                                assert(s[j + 2 + k] == rest[t.len() + 2 + k]);
                                assert(rest[t.len() + 2 + k] == f1[2 + k]);
                                assert(f1[2 + k] == n[k]);
                            }
                        }
                        assert(parse_from(s, j, t, acc) == parse_from(
                            s,
                            e,
                            Seq::<char>::empty(),
                            acc.push(cs[0]).push(cs[1]),
                        ));
                        assert(s.subrange(e, s.len() as int) =~= tail2) by {
                            assert forall|k: int| 0 <= k < tail2.len() implies s.subrange(
                                e,
                                s.len() as int,
                            )[k] == tail2[k] by {
                                assert(s.subrange(e, s.len() as int)[k] == s[e + k]);
                                assert(s[e + k] == rest[e + k - i]);
                                assert(rest[e + k - i] == tail2[k]);
                            }
                        }
                        lemma_reparse_at(s, e, acc.push(cs[0]).push(cs[1]), cs.skip(2));
                        assert(acc.push(cs[0]).push(cs[1]) + cs.skip(2) =~= acc + cs);
                    },
                    _ => {
                let raw = raw_of(cs[1]);
                let w = raw + seq![']', ']'];
                assert(frag(cs[1]) =~= seq!['[', '['] + w);
                assert(cs.drop_first()[0] == cs[1]);
                assert(spec_serialize(cs.drop_first()) == frag(cs[1]) + spec_serialize(
                    cs.drop_first().drop_first(),
                ));
                assert(cs.drop_first().drop_first() =~= cs.skip(2));
                let tail2 = spec_serialize(cs.skip(2));
                let mid = seq!['[', '['] + w;
                assert(rest =~= t + mid + tail2);
                assert(mid[0] == '[');
                assert(mid[1] == '[');
                let j = i + t.len();
                assert(rest[j - i] == mid[0]);
                assert(rest[j - i + 1] == mid[1]);
                assert(s[j] == rest[j - i]);
                assert(s[j + 1] == rest[j - i + 1]);
                assert forall|k: int| i <= k < j implies !is_marker_at(s, k) by {
                    assert(s[k] == rest[k - i]);
                    assert(rest[k - i] == t[k - i]);
                    if k < j - 1 {
                        assert(s[k + 1] == rest[k - i + 1]);
                        assert(rest[k - i + 1] == t[k - i + 1]);
                        assert(!(t[k - i] == '$' && t[k - i + 1] == '$') && !(t[k - i] == '[' && t[k
                            - i + 1] == '['));
                    } else {
                        assert(t[t.len() - 1] != '[');
                        assert(s[k + 1] == '[');
                    }
                }
                lemma_text_scan(s, i, j, Seq::<char>::empty(), acc);
                assert(Seq::<char>::empty() + s.subrange(i, j) =~= t) by {
                    assert forall|k: int| 0 <= k < t.len() implies s.subrange(i, j)[k] == t[k] by {
                        assert(s.subrange(i, j)[k] == s[i + k]);
                        assert(s[i + k] == rest[k]);
                        assert(rest[k] == t[k]);
                    }
                }
                assert(body_ok(raw));
                assert(body_scan_end(w, 0, 0) == raw.len());
                assert(raw.len() < w.len());
                assert(s.subrange(j + 2, j + 2 + w.len() as int) =~= w) by {
                    assert forall|k: int| 0 <= k < w.len() implies s.subrange(
                        j + 2,
                        j + 2 + w.len() as int,
                    )[k] == w[k] by {
                        assert(s.subrange(j + 2, j + 2 + w.len() as int)[k] == s[j + 2 + k]);
                        assert(s[j + 2 + k] == rest[t.len() + 2 + k]);
                        assert(rest[t.len() + 2 + k] == mid[2 + k]);
                        assert(mid[2 + k] == w[k]);
                    }
                }
                lemma_body_scan_shift(w, s, j + 2, 0, 0);
                let e = j + 2 + raw.len();
                assert(body_scan_end(s, j + 2, 0) == e);
                assert(e + 2 <= s.len());
                assert(e != s.len());
                assert(s.subrange(j + 2, e) =~= raw) by {
                    assert forall|k: int| 0 <= k < raw.len() implies s.subrange(j + 2, e)[k]
                        == raw[k] by {
                        assert(s.subrange(j + 2, e)[k] == s[j + 2 + k]);
                        assert(s[j + 2 + k] == rest[t.len() + 2 + k]);
                        assert(rest[t.len() + 2 + k] == mid[2 + k]);
                        assert(mid[2 + k] == w[k]);
                        assert(w[k] == raw[k]);
                    }
                }
                assert(classify_body(raw) == cs[1]);
                assert(parse_from(s, j, t, acc) == parse_from(
                    s,
                    e + 2,
                    Seq::<char>::empty(),
                    acc.push(cs[0]).push(cs[1]),
                ));
                assert(s.subrange(e + 2, s.len() as int) =~= tail2) by {
                    assert forall|k: int| 0 <= k < tail2.len() implies s.subrange(
                        e + 2,
                        s.len() as int,
                    )[k] == tail2[k] by {
                        assert(s.subrange(e + 2, s.len() as int)[k] == s[e + 2 + k]);
                        assert(s[e + 2 + k] == rest[e + 2 + k - i]);
                        assert(rest[e + 2 + k - i] == tail2[k]);
                    }
                }
                lemma_reparse_at(s, e + 2, acc.push(cs[0]).push(cs[1]), cs.skip(2));
                assert(acc.push(cs[0]).push(cs[1]) + cs.skip(2) =~= acc + cs);
                    },
                }
            }
        },
        _ => {
            assert(false);
        },
    }
}

/// The round-trip law at the component level: serializing a well-formed
/// component sequence and parsing the result yields the same components,
/// in the same order.
pub proof fn lemma_reparse(cs: Seq<CompView>)
    requires
        wf_components(cs),
    ensures
        spec_parse(spec_serialize(cs)) == cs,
{
    let s = spec_serialize(cs);
    assert(s.subrange(0, s.len() as int) =~= s);
    lemma_reparse_at(s, 0, Seq::<CompView>::empty(), cs);
    assert(Seq::<CompView>::empty() + cs =~= cs);
}

proof fn lemma_parse_from_structure(s: Seq<char>, i: int, pending: Seq<char>, acc: Seq<CompView>)
    requires
        0 <= i <= s.len(),
    ensures
        parse_from(s, i, pending, acc).len() > acc.len(),
        parse_from(s, i, pending, acc).subrange(0, acc.len() as int) == acc,
        parse_from(s, i, pending, acc).last() is Text,
        forall|k: int|
            acc.len() <= k < parse_from(s, i, pending, acc).len() && !((#[trigger] parse_from(
                s,
                i,
                pending,
                acc,
            )[k]) is Text) ==> k >= 1 && parse_from(s, i, pending, acc)[k - 1] is Text,
    decreases s.len() - i,
{
    let r = parse_from(s, i, pending, acc);
    if !(0 <= i < s.len()) {
        assert(r == acc.push(CompView::Text(pending)));
        assert(r.subrange(0, acc.len() as int) =~= acc);
    } else if s[i] == '$' && i + 1 < s.len() && s[i + 1] == '$' {
        let e = alnum_run_end(s, i + 2);
        crate::model::lemma_alnum_run_end_bounds(s, i + 2);
        let acc2 = acc.push(CompView::Text(pending)).push(CompView::Variable(s.subrange(i + 2, e)));
        lemma_parse_from_structure(s, e, Seq::<char>::empty(), acc2);
        assert(r.subrange(0, acc.len() as int) =~= r.subrange(0, acc2.len() as int).subrange(
            0,
            acc.len() as int,
        ));
        assert(r[acc.len() as int] == acc2[acc.len() as int]);
        assert(r[acc.len() as int + 1] == acc2[acc.len() as int + 1]);
        assert(acc2[acc.len() as int] is Text);
    } else if s[i] == '[' && i + 1 < s.len() && s[i + 1] == '[' {
        let e = body_scan_end(s, i + 2, 0);
        lemma_body_scan_end_bounds(s, i + 2, 0);
        let raw = s.subrange(i + 2, e);
        let next = if e == s.len() {
            e
        } else {
            e + 2
        };
        let acc2 = acc.push(CompView::Text(pending)).push(classify_body(raw));
        lemma_parse_from_structure(s, next, Seq::<char>::empty(), acc2);
        assert(r.subrange(0, acc.len() as int) =~= r.subrange(0, acc2.len() as int).subrange(
            0,
            acc.len() as int,
        ));
        assert(r[acc.len() as int] == acc2[acc.len() as int]);
        assert(r[acc.len() as int + 1] == acc2[acc.len() as int + 1]);
        assert(acc2[acc.len() as int] is Text);
    } else {
        lemma_parse_from_structure(s, i + 1, pending.push(s[i]), acc);
    }
}

/// Position of the first variable or regex marker at or after `i`.
pub open spec fn next_marker(s: Seq<char>, i: int) -> int
    decreases s.len() - i,
{
    if !(0 <= i < s.len()) {
        s.len() as int
    } else if is_marker_at(s, i) {
        i
    } else {
        next_marker(s, i + 1)
    }
}

proof fn lemma_next_marker(s: Seq<char>, i: int)
    requires
        0 <= i <= s.len(),
    ensures
        i <= next_marker(s, i) <= s.len(),
        forall|k: int| i <= k < next_marker(s, i) ==> !is_marker_at(s, k),
    decreases s.len() - i,
{
    if i < s.len() && !is_marker_at(s, i) {
        lemma_next_marker(s, i + 1);
    }
}

proof fn lemma_alnum_run_chars(s: Seq<char>, i: int)
    requires
        0 <= i <= s.len(),
    ensures
        i <= alnum_run_end(s, i) <= s.len(),
        forall|k: int| i <= k < alnum_run_end(s, i) ==> is_alnum(#[trigger] s[k]),
        alnum_run_end(s, i) < s.len() ==> !is_alnum(s[alnum_run_end(s, i)]),
    decreases s.len() - i,
{
    if i < s.len() && is_alnum(s[i]) {
        lemma_alnum_run_chars(s, i + 1);
    }
}

proof fn lemma_first_colon(s: Seq<char>, i: int)
    requires
        0 <= i <= s.len(),
    ensures
        i <= first_colon_from(s, i) <= s.len(),
        first_colon_from(s, i) < s.len() ==> s[first_colon_from(s, i)] == ':',
    decreases s.len() - i,
{
    if i < s.len() && s[i] != ':' {
        lemma_first_colon(s, i + 1);
    }
}

proof fn lemma_classify_raw(raw: Seq<char>)
    ensures
        classify_body(raw) is Regex || classify_body(raw) is NamedRegex,
        raw_of(classify_body(raw)) == raw,
{
    let j = first_colon_from(raw, 0);
    lemma_first_colon(raw, 0);
    if j < raw.len() && is_identifier(raw.subrange(0, j)) {
        assert(raw.subrange(0, j) + seq![':'] + raw.subrange(j + 1, raw.len() as int) =~= raw);
    }
}

/// Whether every regex component of `cs` has a bracket-balanced body:
/// one whose block scan runs exactly to the closing marker the serializer
/// appends after it.  This fails only for blocks the scanner closed at
/// the end of the input or whose nesting counter went negative.
pub open spec fn bodies_ok(cs: Seq<CompView>) -> bool {
    forall|k: int|
        0 <= k < cs.len() && ((#[trigger] cs[k]) is Regex || cs[k] is NamedRegex) ==> body_ok(
            raw_of(cs[k]),
        )
}

/// Structure of the scanner's output, for every input: at least one
/// component comes back, the last one is literal text, and each variable
/// or regex component stands immediately after the text that was flushed
/// at its marker.
pub proof fn lemma_parse_structure(s: Seq<char>)
    ensures
        spec_parse(s).len() >= 1,
        spec_parse(s).last() is Text,
        forall|k: int|
            0 <= k < spec_parse(s).len() && !((#[trigger] spec_parse(s)[k]) is Text) ==> k >= 1
                && spec_parse(s)[k - 1] is Text,
{
    lemma_parse_from_structure(s, 0, Seq::<char>::empty(), Seq::<CompView>::empty());
}

proof fn lemma_parse_from_wf(s: Seq<char>, i: int, pending: Seq<char>, acc: Seq<CompView>)
    requires
        0 <= i <= s.len(),
        text_ok(pending),
        pending.len() > 0 && i < s.len() ==> !(pending[pending.len() - 1] == '$' && s[i] == '$')
            && !(pending[pending.len() - 1] == '[' && s[i] == '['),
    ensures
        parse_from(s, i, pending, acc)[acc.len() as int] == CompView::Text(
            pending + s.subrange(i, next_marker(s, i)),
        ),
        bodies_ok(parse_from(s, i, pending, acc).skip(acc.len() as int)) ==> wf_components(
            parse_from(s, i, pending, acc).skip(acc.len() as int),
        ),
    decreases s.len() - i,
{
    let r = parse_from(s, i, pending, acc);
    lemma_parse_from_structure(s, i, pending, acc);
    lemma_next_marker(s, i);
    let suf = r.skip(acc.len() as int);
    assert(forall|m: int| 0 <= m < suf.len() ==> #[trigger] suf[m] == r[acc.len() + m]);
    if !(0 <= i < s.len()) {
        assert(r == acc.push(CompView::Text(pending)));
        assert(next_marker(s, i) == s.len());
        assert(pending + s.subrange(i, s.len() as int) =~= pending);
        assert(r[acc.len() as int] == CompView::Text(pending + s.subrange(i, next_marker(s, i))));
        assert(suf =~= seq![CompView::Text(pending)]);
        assert(wf_components(suf));
    } else if s[i] == '$' && i + 1 < s.len() && s[i + 1] == '$' {
        let e = alnum_run_end(s, i + 2);
        lemma_alnum_run_chars(s, i + 2);
        let n = s.subrange(i + 2, e);
        let acc2 = acc.push(CompView::Text(pending)).push(CompView::Variable(n));
        assert(r == parse_from(s, e, Seq::<char>::empty(), acc2));
        lemma_parse_from_structure(s, e, Seq::<char>::empty(), acc2);
        lemma_parse_from_wf(s, e, Seq::<char>::empty(), acc2);
        lemma_next_marker(s, e);
        assert(next_marker(s, i) == i);
        assert(pending + s.subrange(i, i) =~= pending);
        assert(r[acc.len() as int] == r.subrange(0, acc2.len() as int)[acc.len() as int]);
        assert(r[acc.len() as int] == CompView::Text(pending));
        assert(r[acc.len() as int] == CompView::Text(pending + s.subrange(i, next_marker(s, i))));
        let suf2 = r.skip(acc2.len() as int);
        assert(suf[0] == r[acc.len() as int]);
        assert(suf[1] == r[acc.len() as int + 1]);
        assert(r[acc.len() as int + 1] == r.subrange(0, acc2.len() as int)[acc.len() as int + 1]);
        assert(suf[1] == CompView::Variable(n));
        assert(suf.skip(2) =~= suf2);
        if bodies_ok(suf) {
            assert(bodies_ok(suf2)) by {
                assert forall|k: int|
                    0 <= k < suf2.len() && ((#[trigger] suf2[k]) is Regex
                        || suf2[k] is NamedRegex) implies body_ok(raw_of(suf2[k])) by {
                    assert(suf2[k] == suf[k + 2]);
                    assert(body_ok(raw_of(suf[k + 2])));
                }
            }
            assert(wf_components(suf2));
            assert(suf2[0] == r[acc2.len() as int]);
            let t2 = Seq::<char>::empty() + s.subrange(e, next_marker(s, e));
            assert(suf2[0] == CompView::Text(t2));
            assert(all_alnum(n)) by {
                assert forall|k: int| 0 <= k < n.len() implies is_alnum(#[trigger] n[k]) by {
                    assert(n[k] == s[i + 2 + k]);
                }
            }
            assert(t2.len() > 0 ==> !is_alnum(t2[0])) by {
                if t2.len() > 0 {
                    assert(e < next_marker(s, e));
                    assert(t2[0] == s[e]);
                    assert(!is_alnum(s[e]));
                }
            }
            assert(pending.len() > 0 ==> pending[pending.len() - 1] != '$');
            assert(suf.len() >= 3);
            assert(suf[2] == suf2[0]);
            assert(wf_components(suf.skip(2)));
            assert(wf_components(suf));
        }
    } else if s[i] == '[' && i + 1 < s.len() && s[i + 1] == '[' {
        let e = body_scan_end(s, i + 2, 0);
        lemma_body_scan_end_bounds(s, i + 2, 0);
        let raw = s.subrange(i + 2, e);
        let c1 = classify_body(raw);
        lemma_classify_raw(raw);
        let next = if e == s.len() {
            e
        } else {
            e + 2
        };
        let acc2 = acc.push(CompView::Text(pending)).push(c1);
        assert(r == parse_from(s, next, Seq::<char>::empty(), acc2));
        lemma_parse_from_structure(s, next, Seq::<char>::empty(), acc2);
        lemma_parse_from_wf(s, next, Seq::<char>::empty(), acc2);
        assert(next_marker(s, i) == i);
        assert(pending + s.subrange(i, i) =~= pending);
        assert(r[acc.len() as int] == r.subrange(0, acc2.len() as int)[acc.len() as int]);
        assert(r[acc.len() as int] == CompView::Text(pending));
        assert(r[acc.len() as int] == CompView::Text(pending + s.subrange(i, next_marker(s, i))));
        let suf2 = r.skip(acc2.len() as int);
        assert(suf[0] == r[acc.len() as int]);
        assert(suf[1] == r[acc.len() as int + 1]);
        assert(r[acc.len() as int + 1] == r.subrange(0, acc2.len() as int)[acc.len() as int + 1]);
        assert(suf[1] == c1);
        assert(suf.skip(2) =~= suf2);
        if bodies_ok(suf) {
            assert(bodies_ok(suf2)) by {
                assert forall|k: int|
                    0 <= k < suf2.len() && ((#[trigger] suf2[k]) is Regex
                        || suf2[k] is NamedRegex) implies body_ok(raw_of(suf2[k])) by {
                    assert(suf2[k] == suf[k + 2]);
                    assert(body_ok(raw_of(suf[k + 2])));
                }
            }
            assert(wf_components(suf2));
            assert(body_ok(raw_of(suf[1])));
            assert(regex_comp_ok(c1));
            assert(pending.len() > 0 ==> pending[pending.len() - 1] != '[');
            assert(wf_components(suf.skip(2)));
            assert(wf_components(suf));
        }
    } else {
        let p2 = pending.push(s[i]);
        assert(text_ok(p2)) by {
            assert forall|k: int|
                0 <= k < p2.len() - 1 implies !((#[trigger] p2[k]) == '$' && p2[k + 1] == '$')
                    && !(p2[k] == '[' && p2[k + 1] == '[') by {
                if k < pending.len() - 1 {
                    assert(p2[k] == pending[k]);
                    assert(p2[k + 1] == pending[k + 1]);
                    assert(!(pending[k] == '$' && pending[k + 1] == '$') && !(pending[k] == '['
                        && pending[k + 1] == '['));
                } else {
                    assert(p2[k] == pending[pending.len() - 1]);
                    assert(p2[k + 1] == s[i]);
                }
            }
        }
        assert(r == parse_from(s, i + 1, p2, acc));
        lemma_parse_from_wf(s, i + 1, p2, acc);
        lemma_next_marker(s, i + 1);
        assert(!is_marker_at(s, i));
        assert(next_marker(s, i) == next_marker(s, i + 1));
        assert(p2 + s.subrange(i + 1, next_marker(s, i + 1)) =~= pending + s.subrange(
            i,
            next_marker(s, i),
        ));
    }
}

/// Every scan with bracket-balanced regex bodies is well-formed: the
/// serializer and scanner read it back exactly.
pub proof fn lemma_parse_wf(s: Seq<char>)
    requires
        bodies_ok(spec_parse(s)),
    ensures
        wf_components(spec_parse(s)),
{
    lemma_parse_from_wf(s, 0, Seq::<char>::empty(), Seq::<CompView>::empty());
    assert(spec_parse(s).skip(0) =~= spec_parse(s));
}

/// The concatenated contents of the text components of `cs`.
pub open spec fn texts_of(cs: Seq<CompView>) -> Seq<char>
    decreases cs.len(),
{
    if cs.len() == 0 {
        Seq::<char>::empty()
    } else {
        (match cs[0] {
            CompView::Text(t) => t,
            _ => Seq::<char>::empty(),
        }) + texts_of(cs.drop_first())
    }
}

proof fn lemma_escape_concat(a: Seq<char>, b: Seq<char>)
    ensures
        escape_seq(a + b) == escape_seq(a) + escape_seq(b),
    decreases a.len(),
{
    if a.len() == 0 {
        assert(a + b =~= b);
        assert(escape_seq(a) =~= Seq::<char>::empty());
        assert(escape_seq(a + b) =~= escape_seq(a) + escape_seq(b));
    } else {
        assert((a + b).drop_first() =~= a.drop_first() + b);
        assert((a + b)[0] == a[0]);
        lemma_escape_concat(a.drop_first(), b);
        assert(escape_seq(a + b) =~= escape_seq(a) + escape_seq(b));
    }
}

/// Escaping correctness at the source level: a matcher made only of
/// literal text resolves, under any bindings, to exactly the
/// metacharacter-escaped form of its concatenated text — nothing is
/// inserted verbatim.
pub proof fn lemma_text_only_resolution(cs: Seq<CompView>, vars: Map<Seq<char>, Seq<char>>)
    requires
        forall|k: int| 0 <= k < cs.len() ==> (#[trigger] cs[k]) is Text,
    ensures
        spec_resolved(cs, vars) == escape_seq(texts_of(cs)),
    decreases cs.len(),
{
    if cs.len() == 0 {
        assert(escape_seq(Seq::<char>::empty()) == Seq::<char>::empty());
    } else {
        assert(cs[0] is Text);
        assert forall|k: int| 0 <= k < cs.drop_first().len() implies (#[trigger] cs.drop_first()[
            k]) is Text by {
            assert(cs.drop_first()[k] == cs[k + 1]);
        }
        lemma_text_only_resolution(cs.drop_first(), vars);
        lemma_escape_concat(cs[0]->Text_0, texts_of(cs.drop_first()));
    }
}

/// The round-trip law: serializing what a source string parses to, and
/// re-parsing the result, yields exactly the same component sequence —
/// for every source whose regex bodies are bracket-balanced, the one
/// genuine exception (an unterminated or over-closed block is rendered
/// closed, and the closed form scans differently).
pub proof fn lemma_round_trip(s: Seq<char>)
    requires
        bodies_ok(spec_parse(s)),
    ensures
        spec_parse(spec_serialize(spec_parse(s))) == spec_parse(s),
{
    lemma_parse_wf(s);
    lemma_reparse(spec_parse(s));
}

} // verus!

//! The mathematical model of the matcher language.
//!
//! Everything here is specification-level: the scanner (`spec_parse`), the
//! serializer (`spec_serialize`) and the resolver (`spec_resolved`) are given
//! as functions on `Seq<char>`, and the executable code in `crate::matcher`
//! is proved to compute them.

use vstd::prelude::*;

verus! {

/// One atomic piece of matcher source, at the specification level.
pub enum CompView {
    /// A run of literal characters, matched verbatim after escaping.
    Text(Seq<char>),
    /// A reference to an externally supplied value, substituted verbatim.
    Variable(Seq<char>),
    /// An anonymous regular-expression fragment, substituted verbatim.
    Regex(Seq<char>),
    /// A fragment wrapped as a capture group labeled with a name.
    NamedRegex(Seq<char>, Seq<char>),
}

/// What `char::is_alphanumeric` returns on characters outside ASCII.
pub uninterp spec fn is_alnum_non_ascii(c: char) -> bool;

/// Whether a character is alphanumeric in the sense of
/// `char::is_alphanumeric`: pinned down on ASCII, opaque beyond it.
pub open spec fn is_alnum(c: char) -> bool {
    if (c as u32) < 128 {
        (48 <= c as u32 && c as u32 <= 57)  // '0' ..= '9'
        || (65 <= c as u32 && c as u32 <= 90)  // 'A' ..= 'Z'
        || (97 <= c as u32 && c as u32 <= 122)  // 'a' ..= 'z'
    } else {
        is_alnum_non_ascii(c)
    }
}

/// First character of an identifier: a letter or an underscore.
pub open spec fn is_ident_start(c: char) -> bool {
    (65 <= c as u32 && c as u32 <= 90) || (97 <= c as u32 && c as u32 <= 122) || c == '_'
}

/// Later character of an identifier: a letter, a digit or an underscore.
pub open spec fn is_ident_char(c: char) -> bool {
    is_ident_start(c) || (48 <= c as u32 && c as u32 <= 57)
}

/// The identifier grammar that decides named-vs-anonymous regex fragments.
pub open spec fn is_identifier(s: Seq<char>) -> bool {
    s.len() > 0 && is_ident_start(s[0]) && (forall|i: int|
        1 <= i < s.len() ==> is_ident_char(#[trigger] s[i]))
}

/// Index of the first `:` in `s` at or after `i`, or `s.len()` if none.
pub open spec fn first_colon_from(s: Seq<char>, i: int) -> int
    decreases s.len() - i,
{
    if !(0 <= i < s.len()) {
        s.len() as int
    } else if s[i] == ':' {
        i
    } else {
        first_colon_from(s, i + 1)
    }
}

/// End of the maximal alphanumeric run that starts at `i`.
pub open spec fn alnum_run_end(s: Seq<char>, i: int) -> int
    decreases s.len() - i,
{
    if 0 <= i < s.len() && is_alnum(s[i]) {
        alnum_run_end(s, i + 1)
    } else {
        i
    }
}

/// Where the scan of a regex block ends: the index of the first `]` of a
/// `]]` pair seen at bracket-nesting level zero, or `s.len()` when the
/// input runs out first.
pub open spec fn body_scan_end(s: Seq<char>, i: int, level: int) -> int
    decreases s.len() - i,
{
    if !(0 <= i < s.len()) {
        s.len() as int
    } else if s[i] == ']' && i + 1 < s.len() && s[i + 1] == ']' && level == 0 {
        i
    } else {
        let next_level = if s[i] == '[' {
            level + 1
        } else if s[i] == ']' {
            level - 1
        } else {
            level
        };
        body_scan_end(s, i + 1, next_level)
    }
}

/// Named-vs-anonymous disambiguation of a raw regex body: split at the
/// first `:` when everything before it is an identifier, else keep the
/// whole body (colon included) as an anonymous pattern.
pub open spec fn classify_body(raw: Seq<char>) -> CompView {
    let j = first_colon_from(raw, 0);
    if j < raw.len() && is_identifier(raw.subrange(0, j)) {
        CompView::NamedRegex(raw.subrange(0, j), raw.subrange(j + 1, raw.len() as int))
    } else {
        CompView::Regex(raw)
    }
}

pub proof fn lemma_alnum_run_end_bounds(s: Seq<char>, i: int)
    requires
        0 <= i <= s.len(),
    ensures
        i <= alnum_run_end(s, i) <= s.len(),
    decreases s.len() - i,
{
    if i < s.len() && is_alnum(s[i]) {
        lemma_alnum_run_end_bounds(s, i + 1);
    }
}

pub proof fn lemma_body_scan_end_bounds(s: Seq<char>, i: int, level: int)
    requires
        0 <= i <= s.len(),
    ensures
        i <= body_scan_end(s, i, level) <= s.len(),
        body_scan_end(s, i, level) < s.len() ==> body_scan_end(s, i, level) + 2 <= s.len(),
    decreases s.len() - i,
{
    if i < s.len() {
        if s[i] == ']' && i + 1 < s.len() && s[i + 1] == ']' && level == 0 {
        } else {
            let next_level = if s[i] == '[' {
                level + 1
            } else if s[i] == ']' {
                level - 1
            } else {
                level
            };
            lemma_body_scan_end_bounds(s, i + 1, next_level);
        }
    }
}

/// The scanner: a single left-to-right pass over `s` from position `i`,
/// carrying the pending literal text and the components built so far.
///
/// Scanning never fails: malformed syntax degrades to literal text or to a
/// block closed at the end of the input.  Pending literal text is flushed
/// at every marker and at the end of the input, so components come out in
/// source order; a `$$` marker followed by no alphanumeric character
/// yields a variable with an empty name and consumes nothing further.
pub open spec fn parse_from(s: Seq<char>, i: int, pending: Seq<char>, acc: Seq<CompView>) -> Seq<
    CompView,
>
    decreases s.len() - i,
    via parse_from_decreases
{
    if !(0 <= i < s.len()) {
        acc.push(CompView::Text(pending))
    } else if s[i] == '$' && i + 1 < s.len() && s[i + 1] == '$' {
        let e = alnum_run_end(s, i + 2);
        parse_from(
            s,
            e,
            Seq::empty(),
            acc.push(CompView::Text(pending)).push(CompView::Variable(s.subrange(i + 2, e))),
        )
    } else if s[i] == '[' && i + 1 < s.len() && s[i + 1] == '[' {
        let e = body_scan_end(s, i + 2, 0);
        let raw = s.subrange(i + 2, e);
        let next = if e == s.len() {
            e
        } else {
            e + 2
        };
        parse_from(
            s,
            next,
            Seq::empty(),
            acc.push(CompView::Text(pending)).push(classify_body(raw)),
        )
    } else {
        parse_from(s, i + 1, pending.push(s[i]), acc)
    }
}

#[via_fn]
proof fn parse_from_decreases(s: Seq<char>, i: int, pending: Seq<char>, acc: Seq<CompView>) {
    if 0 <= i < s.len() {
        if s[i] == '$' && i + 1 < s.len() && s[i + 1] == '$' {
            lemma_alnum_run_end_bounds(s, i + 2);
        } else if s[i] == '[' && i + 1 < s.len() && s[i + 1] == '[' {
            lemma_body_scan_end_bounds(s, i + 2, 0);
        }
    }
}

/// The component sequence of a matcher source string.
pub open spec fn spec_parse(s: Seq<char>) -> Seq<CompView> {
    parse_from(s, 0, Seq::empty(), Seq::empty())
}

/// The textual rendering of one component.
pub open spec fn frag(c: CompView) -> Seq<char> {
    match c {
        CompView::Text(t) => t,
        CompView::Variable(n) => seq!['$', '$'] + n,
        CompView::Regex(p) => seq!['[', '['] + p + seq![']', ']'],
        CompView::NamedRegex(n, p) => seq!['[', '['] + n + seq![':'] + p + seq![']', ']'],
    }
}

/// The textual rendering of a component sequence, in order.
pub open spec fn spec_serialize(cs: Seq<CompView>) -> Seq<char>
    decreases cs.len(),
{
    if cs.len() == 0 {
        Seq::empty()
    } else {
        frag(cs[0]) + spec_serialize(cs.drop_first())
    }
}

/// The characters that the regex crate's `escape` treats as meta characters.
pub open spec fn is_regex_meta(c: char) -> bool {
    c == '\\' || c == '.' || c == '+' || c == '*' || c == '?' || c == '(' || c == ')' || c == '|'
        || c == '[' || c == ']' || c == '{' || c == '}' || c == '^' || c == '$' || c == '#'
        || c == '&' || c == '-' || c == '~'
}

/// One escaped character: a backslash is put before each meta character.
pub open spec fn escape_char(c: char) -> Seq<char> {
    if is_regex_meta(c) {
        seq!['\\', c]
    } else {
        seq![c]
    }
}

/// The regex-metacharacter-escaped form of a literal text.
pub open spec fn escape_seq(s: Seq<char>) -> Seq<char>
    decreases s.len(),
{
    if s.len() == 0 {
        Seq::<char>::empty()
    } else {
        escape_char(s[0]) + escape_seq(s.drop_first())
    }
}

/// Whether every variable referenced by `cs` is bound in `vars`.
pub open spec fn all_bound(cs: Seq<CompView>, vars: Map<Seq<char>, Seq<char>>) -> bool {
    forall|i: int|
        0 <= i < cs.len() ==> match #[trigger] cs[i] {
            CompView::Variable(n) => vars.contains_key(n),
            _ => true,
        }
}

/// The regex-source fragment one component resolves to.
pub open spec fn resolved_frag(c: CompView, vars: Map<Seq<char>, Seq<char>>) -> Seq<char> {
    match c {
        CompView::Text(t) => escape_seq(t),
        CompView::Variable(n) => vars[n],
        CompView::Regex(p) => p,
        CompView::NamedRegex(n, p) => seq!['(', '?', 'P', '<'] + n + seq!['>'] + p + seq![')'],
    }
}

/// The regex source a component sequence resolves to, fragment by fragment.
pub open spec fn spec_resolved(cs: Seq<CompView>, vars: Map<Seq<char>, Seq<char>>) -> Seq<char>
    decreases cs.len(),
{
    if cs.len() == 0 {
        Seq::<char>::empty()
    } else {
        resolved_frag(cs[0], vars) + spec_resolved(cs.drop_first(), vars)
    }
}

/// The name of the first variable in `cs` that `vars` does not bind.
pub open spec fn first_unbound(cs: Seq<CompView>, vars: Map<Seq<char>, Seq<char>>) -> Seq<char>
    decreases cs.len(),
{
    if cs.len() == 0 {
        Seq::<char>::empty()
    } else {
        match cs[0] {
            CompView::Variable(n) => if !vars.contains_key(n) {
                n
            } else {
                first_unbound(cs.drop_first(), vars)
            },
            _ => first_unbound(cs.drop_first(), vars),
        }
    }
}

} // verus!

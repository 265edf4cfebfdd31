//! Executable matchers: parsing, serialization and resolution.

use vstd::prelude::*;
use vstd::string::StrSliceExecFns;
use vstd::string::StringExecFns;

use crate::model::{
    alnum_run_end, all_bound, body_scan_end, classify_body, escape_char, escape_seq,
    first_colon_from, first_unbound, frag, is_alnum, is_ident_char, is_ident_start, is_identifier,
    is_regex_meta, parse_from, resolved_frag, spec_parse, spec_resolved, spec_serialize, CompView,
};

verus! {

broadcast use vstd::string::group_string_axioms;

/// One component of a matcher: a run of literal text, a variable
/// reference, an anonymous regex fragment, or a named regex fragment.
#[derive(Clone, Debug, PartialEq, Eq)]
pub enum Component {
    Text(String),
    Variable(String),
    Regex(String),
    NamedRegex { name: String, regex: String },
}

impl View for Component {
    type V = CompView;

    open spec fn view(&self) -> CompView {
        match self {
            Component::Text(t) => CompView::Text(t@),
            Component::Variable(n) => CompView::Variable(n@),
            Component::Regex(p) => CompView::Regex(p@),
            Component::NamedRegex { name, regex } => CompView::NamedRegex(name@, regex@),
        }
    }
}

/// An ordered sequence of components, built once by parsing.
#[derive(Clone, Debug, PartialEq, Eq)]
pub struct Matcher {
    /// The components, in source order.
    pub components: Vec<Component>,
}

impl View for Matcher {
    type V = Seq<CompView>;

    open spec fn view(&self) -> Seq<CompView> {
        self.components@.map_values(|c: Component| c@)
    }
}

proof fn lemma_view_push(v: Seq<Component>, c: Component)
    ensures
        v.push(c).map_values(|x: Component| x@) == v.map_values(|x: Component| x@).push(c@),
{
    assert(v.push(c).map_values(|x: Component| x@) =~= v.map_values(|x: Component| x@).push(c@));
}

/// Relies on `char::is_alphanumeric`: the result depends on the character
/// alone, and on ASCII it holds exactly of the digits and letters.
pub assume_specification[ char::is_alphanumeric ](c: char) -> (r: bool)
    ensures
        r == is_alnum(c),
        (c as u32) >= 128 ==> r == crate::model::is_alnum_non_ascii(c),
;

/// Relies on `String: FromIterator<char>`: collecting characters builds the
/// string of exactly those characters, in order.
#[verifier::external_body]
fn string_from_chars(v: &Vec<char>) -> (s: String)
    ensures
        s@ == v@,
{
    v.iter().collect()
}

/// The characters of `s`, in order.
fn str_to_chars(s: &str) -> (v: Vec<char>)
    ensures
        v@ == s@,
{
    let n = s.unicode_len();
    let mut v: Vec<char> = Vec::new();
    let mut i: usize = 0;
    while i < n
        invariant
            i <= n,
            n == s@.len(),
            v@ == s@.subrange(0, i as int),
        decreases n - i,
    {
        v.push(s.get_char(i));
        proof {
            assert(v@ =~= s@.subrange(0, i + 1 as int));
        }
        i = i + 1;
    }
    proof {
        assert(v@ =~= s@);
    }
    v
}

/// The string holding `v[from..to]`.
fn chars_range_to_string(v: &Vec<char>, from: usize, to: usize) -> (s: String)
    requires
        from <= to <= v@.len(),
    ensures
        s@ == v@.subrange(from as int, to as int),
{
    let mut out: Vec<char> = Vec::new();
    let mut i: usize = from;
    while i < to
        invariant
            from <= i <= to <= v@.len(),
            out@ == v@.subrange(from as int, i as int),
        decreases to - i,
    {
        out.push(v[i]);
        proof {
            assert(out@ =~= v@.subrange(from as int, i + 1 as int));
        }
        i = i + 1;
    }
    string_from_chars(&out)
}

/// The characters `v[from..to]`, as their own vector.
fn chars_range_to_vec(v: &Vec<char>, from: usize, to: usize) -> (r: Vec<char>)
    requires
        from <= to <= v@.len(),
    ensures
        r@ == v@.subrange(from as int, to as int),
{
    let mut out: Vec<char> = Vec::new();
    let mut i: usize = from;
    while i < to
        invariant
            from <= i <= to <= v@.len(),
            out@ == v@.subrange(from as int, i as int),
        decreases to - i,
    {
        out.push(v[i]);
        proof {
            assert(out@ =~= v@.subrange(from as int, i + 1 as int));
        }
        i = i + 1;
    }
    out
}

/// End of the maximal alphanumeric run starting at `start`.
fn alnum_run(chars: &Vec<char>, start: usize) -> (e: usize)
    requires
        start <= chars@.len(),
    ensures
        e == alnum_run_end(chars@, start as int),
        start <= e <= chars@.len(),
{
    let mut i = start;
    while i < chars.len() && chars[i].is_alphanumeric()
        invariant
            start <= i <= chars@.len(),
            alnum_run_end(chars@, start as int) == alnum_run_end(chars@, i as int),
        decreases chars@.len() - i,
    {
        i = i + 1;
    }
    i
}

/// Scan a regex block from `start`, tracking bracket nesting, up to a `]]`
/// pair seen at level zero or to the end of the input.
fn body_scan(chars: &Vec<char>, start: usize) -> (e: usize)
    requires
        start <= chars@.len(),
    ensures
        e == body_scan_end(chars@, start as int, 0),
        start <= e <= chars@.len(),
        e < chars@.len() ==> e + 2 <= chars@.len(),
{
    proof {
        crate::model::lemma_body_scan_end_bounds(chars@, start as int, 0);
    }
    let n = chars.len();
    let mut i = start;
    let mut level: i128 = 0;
    loop
        invariant
            start <= i <= n,
            n == chars@.len(),
            -(i as int) <= level as int <= i as int,
            body_scan_end(chars@, start as int, 0) == body_scan_end(chars@, i as int, level as int),
            body_scan_end(chars@, start as int, 0) >= start,
            body_scan_end(chars@, start as int, 0) < chars@.len() ==> body_scan_end(
                chars@,
                start as int,
                0,
            ) + 2 <= chars@.len(),
        decreases n - i,
    {
        if i >= n {
            return n;
        }
        let c = chars[i];
        if c == ']' && i + 1 < n && chars[i + 1] == ']' && level == 0 {
            return i;
        }
        if c == '[' {
            level = level + 1;
        } else if c == ']' {
            level = level - 1;
        }
        i = i + 1;
    }
}

/// Index of the first `:` in `v` at or after position 0, or `v.len()`.
fn find_colon(v: &Vec<char>) -> (j: usize)
    ensures
        j == first_colon_from(v@, 0),
        j <= v@.len(),
{
    let mut i: usize = 0;
    while i < v.len()
        invariant
            i <= v@.len(),
            first_colon_from(v@, 0) == first_colon_from(v@, i as int),
        decreases v@.len() - i,
    {
        if v[i] == ':' {
            return i;
        }
        i = i + 1;
    }
    i
}

/// Whether `v[0..j]` satisfies the identifier grammar.
fn is_identifier_range(v: &Vec<char>, j: usize) -> (r: bool)
    requires
        j <= v@.len(),
    ensures
        r == is_identifier(v@.subrange(0, j as int)),
{
    let ghost pre = v@.subrange(0, j as int);
    if j == 0 {
        return false;
    }
    let c0 = v[0];
    let u0 = c0 as u32;
    let start_ok = (65 <= u0 && u0 <= 90) || (97 <= u0 && u0 <= 122) || c0 == '_';
    if !start_ok {
        assert(!is_ident_start(pre[0]));
        return false;
    }
    let mut i: usize = 1;
    while i < j
        invariant
            1 <= i <= j <= v@.len(),
            pre == v@.subrange(0, j as int),
            is_ident_start(pre[0]),
            forall|k: int| 1 <= k < i ==> is_ident_char(#[trigger] pre[k]),
        decreases j - i,
    {
        let c = v[i];
        let u = c as u32;
        let ok = (65 <= u && u <= 90) || (97 <= u && u <= 122) || c == '_' || (48 <= u && u <= 57);
        if !ok {
            assert(!is_ident_char(pre[i as int]));
            return false;
        }
        i = i + 1;
    }
    true
}

/// The component a raw regex body yields: named when the text before the
/// first `:` is an identifier, anonymous otherwise.
fn classify(raw: &Vec<char>) -> (c: Component)
    ensures
        c@ == classify_body(raw@),
{
    let j = find_colon(raw);
    if j < raw.len() && is_identifier_range(raw, j) {
        let name = chars_range_to_string(raw, 0, j);
        let regex = chars_range_to_string(raw, j + 1, raw.len());
        Component::NamedRegex { name, regex }
    } else {
        Component::Regex(string_from_chars(raw))
    }
}

proof fn lemma_serialize_snoc(cs: Seq<CompView>, c: CompView)
    ensures
        spec_serialize(cs.push(c)) == spec_serialize(cs) + frag(c),
    decreases cs.len(),
{
    if cs.len() == 0 {
        assert(cs.push(c).drop_first() =~= Seq::<CompView>::empty());
        assert(cs.push(c)[0] == c);
        assert(spec_serialize(Seq::<CompView>::empty()) == Seq::<char>::empty());
        assert(spec_serialize(cs.push(c)) == frag(c) + spec_serialize(Seq::<CompView>::empty()));
        assert(spec_serialize(cs.push(c)) =~= spec_serialize(cs) + frag(c));
    } else {
        assert(cs.push(c).drop_first() =~= cs.drop_first().push(c));
        lemma_serialize_snoc(cs.drop_first(), c);
        assert(spec_serialize(cs.push(c)) =~= spec_serialize(cs) + frag(c));
    }
}

impl Matcher {
    /// Parse a matcher source string into its component sequence.
    ///
    /// Components come out in source order: pending literal text is
    /// flushed at every variable or regex marker and at the end of the
    /// input.  Parsing is total: malformed input degrades to literal text
    /// or to a regex block closed at the end of the input, never to an
    /// error.
    pub fn parse(s: &str) -> (m: Matcher)
        ensures
            m@ == spec_parse(s@),
    {
        let chars = str_to_chars(s);
        let n = chars.len();
        let mut components: Vec<Component> = Vec::new();
        let mut pending: Vec<char> = Vec::new();
        let mut i: usize = 0;
        proof {
            assert(components@.map_values(|c: Component| c@) =~= Seq::<CompView>::empty());
            assert(pending@ =~= Seq::<char>::empty());
        }
        while i < n
            invariant
                i <= n,
                n == chars@.len(),
                chars@ == s@,
                spec_parse(s@) == parse_from(
                    chars@,
                    i as int,
                    pending@,
                    components@.map_values(|c: Component| c@),
                ),
            decreases n - i,
        {
            let c = chars[i];
            if c == '$' && i + 1 < n && chars[i + 1] == '$' {
                let text = string_from_chars(&pending);
                pending = Vec::new();
                proof {
                    lemma_view_push(components@, Component::Text(text));
                }
                components.push(Component::Text(text));
                let e = alnum_run(&chars, i + 2);
                let name = chars_range_to_string(&chars, i + 2, e);
                proof {
                    lemma_view_push(components@, Component::Variable(name));
                }
                components.push(Component::Variable(name));
                i = e;
            } else if c == '[' && i + 1 < n && chars[i + 1] == '[' {
                let text = string_from_chars(&pending);
                pending = Vec::new();
                proof {
                    lemma_view_push(components@, Component::Text(text));
                }
                components.push(Component::Text(text));
                let e = body_scan(&chars, i + 2);
                let raw = chars_range_to_vec(&chars, i + 2, e);
                let comp = classify(&raw);
                proof {
                    lemma_view_push(components@, comp);
                }
                components.push(comp);
                i = if e == n {
                    n
                } else {
                    e + 2
                };
            } else {
                pending.push(c);
                i = i + 1;
            }
        }
        let text = string_from_chars(&pending);
        proof {
            lemma_view_push(components@, Component::Text(text));
        }
        components.push(Component::Text(text));
        Matcher { components }
    }

    /// Render the component sequence back into matcher source text.
    pub fn serialize(&self) -> (r: String)
        ensures
            r@ == spec_serialize(self@),
    {
        let mut out = String::new();
        let n = self.components.len();
        let mut i: usize = 0;
        proof {
            assert(self@.subrange(0, 0) =~= Seq::<CompView>::empty());
        }
        while i < n
            invariant
                i <= n,
                n == self.components@.len(),
                n == self@.len(),
                out@ == spec_serialize(self@.subrange(0, i as int)),
            decreases n - i,
        {
            proof {
                reveal_strlit("$$");
                reveal_strlit("[[");
                reveal_strlit("]]");
                reveal_strlit(":");
            }
            match &self.components[i] {
                Component::Text(t) => {
                    out.append(t.as_str());
                },
                Component::Variable(nm) => {
                    out.append("$$");
                    out.append(nm.as_str());
                },
                Component::Regex(p) => {
                    out.append("[[");
                    out.append(p.as_str());
                    out.append("]]");
                },
                Component::NamedRegex { name, regex } => {
                    out.append("[[");
                    out.append(name.as_str());
                    out.append(":");
                    out.append(regex.as_str());
                    out.append("]]");
                },
            }
            proof {
                lemma_serialize_snoc(self@.subrange(0, i as int), self@[i as int]);
                assert(self@.subrange(0, i + 1 as int) =~= self@.subrange(0, i as int).push(
                    self@[i as int],
                ));
                assert(out@ =~= spec_serialize(self@.subrange(0, i + 1 as int)));
            }
            i = i + 1;
        }
        proof {
            assert(self@.subrange(0, n as int) =~= self@);
        }
        out
    }
}

/// Why a matcher could not be resolved against a table of bindings.
#[derive(Clone, Debug, PartialEq, Eq)]
pub enum ResolveError {
    /// Resolution referenced a variable absent from the supplied bindings;
    /// carries the missing name.
    UnboundVariable(String),
    /// The assembled regex source did not compile; carries that source.
    InvalidPattern(String),
}

/// The regex crate's compiled regular expression, carried opaquely.
#[verifier::external_type_specification]
#[verifier::external_body]
pub struct ExRegex(regex::Regex);

/// Whether `regex::Regex::new` accepts a pattern.
pub uninterp spec fn regex_compiles(pattern: Seq<char>) -> bool;

/// Relies on `regex::Regex::new`: whether compiling succeeds is a function
/// of the pattern string alone.
#[verifier::external_body]
fn regex_new(pattern: &str) -> (r: Option<regex::Regex>)
    ensures
        r is Some <==> regex_compiles(pattern@),
{
    regex::Regex::new(pattern).ok()
}

/// Whether the regex crate's `escape` puts a backslash before `c`.
fn is_meta_char(c: char) -> (r: bool)
    ensures
        r == is_regex_meta(c),
{
    c == '\\' || c == '.' || c == '+' || c == '*' || c == '?' || c == '(' || c == ')' || c == '|'
        || c == '[' || c == ']' || c == '{' || c == '}' || c == '^' || c == '$' || c == '#'
        || c == '&' || c == '-' || c == '~'
}

proof fn lemma_escape_snoc(s: Seq<char>, c: char)
    ensures
        escape_seq(s.push(c)) == escape_seq(s) + escape_char(c),
    decreases s.len(),
{
    if s.len() == 0 {
        assert(s.push(c).drop_first() =~= Seq::<char>::empty());
        assert(s.push(c)[0] == c);
        assert(escape_seq(Seq::<char>::empty()) == Seq::<char>::empty());
        assert(escape_seq(s.push(c)) =~= escape_seq(s) + escape_char(c));
    } else {
        assert(s.push(c).drop_first() =~= s.drop_first().push(c));
        lemma_escape_snoc(s.drop_first(), c);
        assert(escape_seq(s.push(c)) =~= escape_seq(s) + escape_char(c));
    }
}

/// The regex-metacharacter-escaped form of a literal text, so that the
/// text matches itself when used inside a regular expression.
pub fn escape_text(t: &str) -> (r: String)
    ensures
        r@ == escape_seq(t@),
{
    let chars = str_to_chars(t);
    let n = chars.len();
    let mut out: Vec<char> = Vec::new();
    let mut i: usize = 0;
    proof {
        assert(chars@.subrange(0, 0) =~= Seq::<char>::empty());
    }
    while i < n
        invariant
            i <= n,
            n == chars@.len(),
            chars@ == t@,
            out@ == escape_seq(chars@.subrange(0, i as int)),
        decreases n - i,
    {
        let c = chars[i];
        if is_meta_char(c) {
            out.push('\\');
        }
        out.push(c);
        proof {
            lemma_escape_snoc(chars@.subrange(0, i as int), chars@[i as int]);
            assert(chars@.subrange(0, i + 1 as int) =~= chars@.subrange(0, i as int).push(
                chars@[i as int],
            ));
            assert(out@ =~= escape_seq(chars@.subrange(0, i + 1 as int)));
        }
        i = i + 1;
    }
    proof {
        assert(chars@.subrange(0, n as int) =~= chars@);
    }
    string_from_chars(&out)
}

proof fn lemma_resolved_snoc(cs: Seq<CompView>, c: CompView, vars: Map<Seq<char>, Seq<char>>)
    ensures
        spec_resolved(cs.push(c), vars) == spec_resolved(cs, vars) + resolved_frag(c, vars),
    decreases cs.len(),
{
    if cs.len() == 0 {
        assert(cs.push(c).drop_first() =~= Seq::<CompView>::empty());
        assert(cs.push(c)[0] == c);
        assert(spec_resolved(Seq::<CompView>::empty(), vars) == Seq::<char>::empty());
        assert(spec_resolved(cs.push(c), vars) =~= spec_resolved(cs, vars) + resolved_frag(c, vars));
    } else {
        assert(cs.push(c).drop_first() =~= cs.drop_first().push(c));
        lemma_resolved_snoc(cs.drop_first(), c, vars);
        assert(spec_resolved(cs.push(c), vars) =~= spec_resolved(cs, vars) + resolved_frag(c, vars));
    }
}

proof fn lemma_first_unbound_at(
    cs: Seq<CompView>,
    vars: Map<Seq<char>, Seq<char>>,
    i: int,
    n: Seq<char>,
)
    requires
        0 <= i < cs.len(),
        cs[i] == CompView::Variable(n),
        !vars.contains_key(n),
        all_bound(cs.subrange(0, i), vars),
    ensures
        first_unbound(cs, vars) == n,
    decreases i,
{
    if i == 0 {
    } else {
        assert(cs.subrange(0, i)[0] == cs[0]);
        assert(cs.drop_first()[i - 1] == cs[i]);
        assert(cs.drop_first().subrange(0, i - 1) =~= cs.subrange(0, i).drop_first());
        assert(all_bound(cs.drop_first().subrange(0, i - 1), vars)) by {
            assert(forall|k: int|
                0 <= k < i - 1 ==> #[trigger] cs.drop_first().subrange(0, i - 1)[k] == cs.subrange(
                    0,
                    i,
                )[k + 1]);
        }
        lemma_first_unbound_at(cs.drop_first(), vars, i - 1, n);
    }
}

impl Matcher {
    /// Assemble the regex source the matcher resolves to: escaped literal
    /// text, verbatim variable values, verbatim regex fragments, and named
    /// fragments wrapped as named capture groups.
    pub fn resolve_source(&self, variables: &crate::bindings::Bindings) -> (r: Result<
        String,
        ResolveError,
    >)
        ensures
            r is Ok <==> all_bound(self@, variables@),
            all_bound(self@, variables@) ==> (r matches Ok(src) && src@ == spec_resolved(
                self@,
                variables@,
            )),
            !all_bound(self@, variables@) ==> (r matches Err(ResolveError::UnboundVariable(n))
                && n@ == first_unbound(self@, variables@)),
    {
        let mut out = String::new();
        let n = self.components.len();
        let mut i: usize = 0;
        proof {
            assert(self@.subrange(0, 0) =~= Seq::<CompView>::empty());
        }
        while i < n
            invariant
                i <= n,
                n == self.components@.len(),
                n == self@.len(),
                out@ == spec_resolved(self@.subrange(0, i as int), variables@),
                all_bound(self@.subrange(0, i as int), variables@),
            decreases n - i,
        {
            proof {
                reveal_strlit("(?P<");
                reveal_strlit(">");
                reveal_strlit(")");
            }
            match &self.components[i] {
                Component::Text(t) => {
                    let e = escape_text(t.as_str());
                    out.append(e.as_str());
                },
                Component::Variable(nm) => {
                    match variables.get(nm.as_str()) {
                        Some(v) => {
                            out.append(v.as_str());
                        },
                        None => {
                            proof {
                                lemma_first_unbound_at(self@, variables@, i as int, nm@);
                                assert(!all_bound(self@, variables@));
                            }
                            return Err(ResolveError::UnboundVariable(nm.clone()));
                        },
                    }
                },
                Component::Regex(p) => {
                    out.append(p.as_str());
                },
                Component::NamedRegex { name, regex } => {
                    out.append("(?P<");
                    out.append(name.as_str());
                    out.append(">");
                    out.append(regex.as_str());
                    out.append(")");
                },
            }
            proof {
                lemma_resolved_snoc(self@.subrange(0, i as int), self@[i as int], variables@);
                assert(self@.subrange(0, i + 1 as int) =~= self@.subrange(0, i as int).push(
                    self@[i as int],
                ));
                assert(out@ =~= spec_resolved(self@.subrange(0, i + 1 as int), variables@));
                assert(all_bound(self@.subrange(0, i + 1 as int), variables@));
            }
            i = i + 1;
        }
        proof {
            assert(self@.subrange(0, n as int) =~= self@);
        }
        Ok(out)
    }

    /// Resolve the matcher against a table of bindings into one compiled
    /// regular expression.
    ///
    /// Fails with `UnboundVariable` exactly when a referenced variable is
    /// missing from `variables` (reporting the first such name), and with
    /// `InvalidPattern` exactly when every variable is bound but the
    /// assembled source (carried in the error) does not compile.
    pub fn resolve(&self, variables: &crate::bindings::Bindings) -> (r: Result<
        regex::Regex,
        ResolveError,
    >)
        ensures
            r is Ok <==> (all_bound(self@, variables@) && regex_compiles(
                spec_resolved(self@, variables@),
            )),
            !all_bound(self@, variables@) ==> (r matches Err(ResolveError::UnboundVariable(n))
                && n@ == first_unbound(self@, variables@)),
            all_bound(self@, variables@) && !regex_compiles(spec_resolved(self@, variables@))
                ==> (r matches Err(ResolveError::InvalidPattern(p)) && p@ == spec_resolved(
                self@,
                variables@,
            )),
    {
        match self.resolve_source(variables) {
            Ok(src) => match regex_new(src.as_str()) {
                Some(re) => Ok(re),
                None => Err(ResolveError::InvalidPattern(src)),
            },
            Err(e) => Err(e),
        }
    }
}

} // verus!

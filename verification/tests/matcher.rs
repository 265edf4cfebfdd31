use lit::bindings::Bindings;
use lit::matcher::{Component, Matcher, ResolveError};

fn text(s: &str) -> Component {
    Component::Text(s.to_string())
}

fn var(s: &str) -> Component {
    Component::Variable(s.to_string())
}

fn rx(s: &str) -> Component {
    Component::Regex(s.to_string())
}

fn named(n: &str, r: &str) -> Component {
    Component::NamedRegex { name: n.to_string(), regex: r.to_string() }
}

#[test]
fn parses_plain_text() {
    assert_eq!(Matcher::parse("abc").components, vec![text("abc")]);
    assert_eq!(Matcher::parse("").components, vec![text("")]);
}

#[test]
fn parses_variable() {
    assert_eq!(Matcher::parse("$$v").components, vec![text(""), var("v"), text("")]);
    assert_eq!(
        Matcher::parse("$$long_name").components,
        vec![text(""), var("long"), text("_name")]
    );
}

#[test]
fn parses_empty_variable_name() {
    // A `$$` followed by no alphanumeric character yields an empty name.
    assert_eq!(Matcher::parse("$$").components, vec![text(""), var(""), text("")]);
    assert_eq!(Matcher::parse("$$!").components, vec![text(""), var(""), text("!")]);
}

#[test]
fn parses_anonymous_regex() {
    assert_eq!(
        Matcher::parse("x[[r]]y").components,
        vec![text("x"), rx("r"), text("y")]
    );
}

#[test]
fn parses_named_regex() {
    assert_eq!(
        Matcher::parse("[[name:[0-9]+]]").components,
        vec![text(""), named("name", "[0-9]+"), text("")]
    );
}

#[test]
fn nested_brackets_do_not_terminate_block() {
    // The inner brackets stay part of the body.
    assert_eq!(
        Matcher::parse("[[a[b]c]]").components,
        vec![text(""), rx("a[b]c"), text("")]
    );
}

#[test]
fn disambiguation_requires_identifier_before_colon() {
    // The pre-colon text violates the identifier grammar, so the whole
    // body, colon included, is one anonymous pattern.
    assert_eq!(
        Matcher::parse("[[notanid!x:foo]]").components,
        vec![text(""), rx("notanid!x:foo"), text("")]
    );
    // A non-capturing group marker has no identifier before its colon.
    assert_eq!(
        Matcher::parse("[[(?:abc)]]").components,
        vec![text(""), rx("(?:abc)"), text("")]
    );
}

#[test]
fn unterminated_block_closes_at_end() {
    assert_eq!(
        Matcher::parse("[[abc").components,
        vec![text(""), rx("abc"), text("")]
    );
    assert_eq!(
        Matcher::parse("[[]x]]").components,
        vec![text(""), rx("]x]]"), text("")]
    );
}

#[test]
fn components_keep_textual_order() {
    // Each component appears exactly where it stood in the source.
    assert_eq!(
        Matcher::parse("abc[[x]]$$v[[y]]end").components,
        vec![text("abc"), rx("x"), text(""), var("v"), text(""), rx("y"), text("end")]
    );
}

#[test]
fn text_before_a_variable_stays_before_it() {
    // Pending literal text is flushed at the `$$` marker, so the text and
    // the variable keep their source order.
    assert_eq!(
        Matcher::parse("a$$v b").components,
        vec![text("a"), var("v"), text(" b")]
    );
}

fn assert_round_trip(source: &str) {
    let parsed = Matcher::parse(source);
    let rendered = parsed.serialize();
    let reparsed = Matcher::parse(&rendered);
    assert_eq!(parsed, reparsed, "round trip failed for {:?} via {:?}", source, rendered);
}

#[test]
fn serialize_reparses_to_same_components() {
    assert_round_trip("");
    assert_round_trip("abc");
    assert_round_trip("$$");
    assert_round_trip("$$v");
    assert_round_trip("x[[r]]y");
    assert_round_trip("[[a[b]c]]");
    assert_round_trip("[[name:[0-9]+]]");
    assert_round_trip("$$v [[\\d+]]");
    assert_round_trip("a$$v");
    assert_round_trip("value=$$v [[\\d+]]");
    assert_round_trip("[[abc");
    assert_round_trip("value=[[\\d+]] $$v!");
}

#[test]
fn serialize_renders_each_component() {
    assert_eq!(Matcher::parse("x[[r]]y").serialize(), "x[[r]]y");
    assert_eq!(Matcher::parse("[[name:[0-9]+]]").serialize(), "[[name:[0-9]+]]");
    assert_eq!(Matcher::parse("$$v").serialize(), "$$v");
    // An unterminated block is rendered closed.
    assert_eq!(Matcher::parse("[[abc").serialize(), "[[abc]]");
}

#[test]
fn escapes_metacharacters_in_text() {
    let m = Matcher::parse("a.b*(c");
    let vars = Bindings::new();
    assert_eq!(m.resolve_source(&vars).unwrap(), "a\\.b\\*\\(c");
    let re = m.resolve(&vars).unwrap();
    assert!(re.is_match("a.b*(c"));
    assert!(!re.is_match("aXb*(c"));
}

#[test]
fn variable_values_are_substituted_unescaped() {
    let m = Matcher::parse("$$v");
    let mut vars = Bindings::new();
    vars.insert("v", "a.b");
    let re = m.resolve(&vars).unwrap();
    // The dot stays a metacharacter: the value went in verbatim.
    assert!(re.is_match("axb"));
    assert!(re.is_match("a.b"));
}

#[test]
fn named_capture_can_be_extracted() {
    let m = Matcher::parse("[[name:[0-9]+]]");
    let vars = Bindings::new();
    assert_eq!(m.resolve_source(&vars).unwrap(), "(?P<name>[0-9]+)");
    let re = m.resolve(&vars).unwrap();
    let caps = re.captures("answer 42!").unwrap();
    assert_eq!(caps.name("name").unwrap().as_str(), "42");
}

#[test]
fn missing_variable_fails_resolution() {
    let m = Matcher::parse("$$x");
    let vars = Bindings::new();
    assert_eq!(
        m.resolve(&vars).unwrap_err(),
        ResolveError::UnboundVariable("x".to_string())
    );
    assert_eq!(
        m.resolve_source(&vars).unwrap_err(),
        ResolveError::UnboundVariable("x".to_string())
    );
}

#[test]
fn first_missing_variable_is_reported() {
    let m = Matcher::parse("$$a$$b");
    let mut vars = Bindings::new();
    vars.insert("a", "1");
    assert_eq!(
        m.resolve(&vars).unwrap_err(),
        ResolveError::UnboundVariable("b".to_string())
    );
}

#[test]
fn invalid_pattern_fails_resolution() {
    let m = Matcher::parse("[[(]]");
    let vars = Bindings::new();
    assert_eq!(
        m.resolve(&vars).unwrap_err(),
        ResolveError::InvalidPattern("(".to_string())
    );
}

#[test]
fn duplicate_capture_names_fail_resolution() {
    let m = Matcher::parse("[[n:a]][[n:b]]");
    let vars = Bindings::new();
    assert_eq!(
        m.resolve(&vars).unwrap_err(),
        ResolveError::InvalidPattern("(?P<n>a)(?P<n>b)".to_string())
    );
}

#[test]
fn resolves_mixed_source() {
    // Components stand in source order, so the assembled pattern reads as
    // the source does; the space before the block stays literal text.
    let m = Matcher::parse("value=$$v [[\\d+]]");
    assert_eq!(
        m.components,
        vec![text("value="), var("v"), text(" "), rx("\\d+"), text("")]
    );
    let mut vars = Bindings::new();
    vars.insert("v", "N");
    assert_eq!(m.resolve_source(&vars).unwrap(), "value=N \\d+");
    let re = m.resolve(&vars).unwrap();
    assert!(re.is_match("value=N 123"));
    assert!(!re.is_match("value=X 123"));
}

#[test]
fn resolves_source_order_scenario() {
    // Literal text, then the variable's value, then the fragment.
    let m = Matcher::parse("value=$$v[[\\d+]]");
    let mut vars = Bindings::new();
    vars.insert("v", "N");
    assert_eq!(m.resolve_source(&vars).unwrap(), "value=N\\d+");
    let re = m.resolve(&vars).unwrap();
    assert!(re.is_match("value=N123"));
    assert!(!re.is_match("value=X123"));
}

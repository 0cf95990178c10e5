use ruster_env::{
    interpolate, parse_env, parse_line, strip_quotes, trim, EnvVar, LineOutcome, ParsedEnv,
};

fn var(key: &str, value: &str) -> EnvVar {
    EnvVar { key: key.to_string(), value: value.to_string() }
}

fn parse(content: &str) -> ParsedEnv {
    parse_env(content, &Vec::new())
}

#[test]
fn test_basic_key_value() {
    let vars = parse("KEY=VALUE\nANOTHER=123").vars;

    assert_eq!(vars.len(), 2);
    assert_eq!(vars[0].key, "KEY");
    assert_eq!(vars[0].value, "VALUE");
}

#[test]
fn test_comments_and_empty_lines() {
    let content = r#"
        # This is a comment
        
        VALID=true
        # Another comment
        SKIP_ME
    "#;
    let vars = parse(content).vars;

    assert_eq!(vars.len(), 1);
    assert_eq!(vars[0].key, "VALID");
}

#[test]
fn test_strip_quotes() {
    let content = r#"
        SINGLE='value'
        DOUBLE="value"
    "#;
    let vars = parse(content).vars;

    assert_eq!(vars[0].value, "value");
    assert_eq!(vars[1].value, "value");
}

#[test]
fn test_export_keyword() {
    let vars = parse("export MY_VAR=cool").vars;

    assert_eq!(vars[0].key, "MY_VAR");
    assert_eq!(vars[0].value, "cool");
}

#[test]
fn test_interpolation() {
    let content = r#"
        BASE=http://localhost
        FULL=${BASE}/api
    "#;
    let vars = parse(content).vars;

    assert_eq!(vars[1].value, "http://localhost/api");
}

#[test]
fn keys_and_values_are_trimmed_in_file_order() {
    let vars = parse("  A  =  one  \r\nB=two\n\tC\t=\tthree\t").vars;
    let got: Vec<(&str, &str)> = vars.iter().map(|v| (v.key.as_str(), v.value.as_str())).collect();
    assert_eq!(got, vec![("A", "one"), ("B", "two"), ("C", "three")]);
}

#[test]
fn value_keeps_everything_after_the_first_equals() {
    let vars = parse("URL=a=b=c").vars;
    assert_eq!(vars[0].key, "URL");
    assert_eq!(vars[0].value, "a=b=c");
}

#[test]
fn empty_value_is_kept() {
    let vars = parse("EMPTY=\nQUOTED=\"\"").vars;
    assert_eq!(vars.len(), 2);
    assert_eq!(vars[0].value, "");
    assert_eq!(vars[1].value, "");
}

#[test]
fn blank_and_comment_lines_give_nothing() {
    let parsed = parse("\n   \n# A=1\n   #B=2\n\t\n");
    assert!(parsed.vars.is_empty());
    assert!(parsed.malformed_lines.is_empty());
}

#[test]
fn malformed_lines_are_numbered_from_one() {
    let parsed = parse("A=1\nNO_EQUALS\n\n=novalue\nB=2");
    assert_eq!(parsed.vars.len(), 2);
    assert_eq!(parsed.vars[1].key, "B");
    assert_eq!(parsed.malformed_lines, vec![2, 4]);
}

#[test]
fn export_prefix_with_extra_spaces() {
    let vars = parse("export    SPACED = v").vars;
    assert_eq!(vars[0].key, "SPACED");
    assert_eq!(vars[0].value, "v");
}

#[test]
fn export_needs_a_following_space() {
    let vars = parse("exported=1").vars;
    assert_eq!(vars[0].key, "exported");
}

#[test]
fn quotes_come_off_once_and_only_in_pairs() {
    assert_eq!(strip_quotes("'v'"), "v");
    assert_eq!(strip_quotes("\"v\""), "v");
    assert_eq!(strip_quotes("''v''"), "'v'");
    assert_eq!(strip_quotes("\"v'"), "\"v'");
    assert_eq!(strip_quotes("'"), "'");
    assert_eq!(strip_quotes("\"\""), "");
    assert_eq!(strip_quotes("plain"), "plain");
}

#[test]
fn later_definition_is_not_seen() {
    let vars = parse("FIRST=${LATER}/x\nLATER=late").vars;
    assert_eq!(vars[0].value, "${LATER}/x");
    assert_eq!(vars[1].value, "late");
}

#[test]
fn unknown_name_stays_literal() {
    let vars = parse("A=${NOT_DEFINED_ANYWHERE}").vars;
    assert_eq!(vars[0].value, "${NOT_DEFINED_ANYWHERE}");
}

#[test]
fn ambient_value_is_used_when_no_earlier_line_binds_the_name() {
    let ambient = vec![var("HOME", "/home/me")];
    let parsed = parse_env("CFG=${HOME}/.cfg", &ambient);
    assert_eq!(parsed.vars[0].value, "/home/me/.cfg");
}

#[test]
fn earlier_line_wins_over_ambient_and_later_duplicates_shadow() {
    let ambient = vec![var("X", "ambient")];
    let parsed = parse_env("X=one\nA=${X}\nX=two\nB=${X}", &ambient);
    let values: Vec<&str> = parsed.vars.iter().map(|v| v.value.as_str()).collect();
    assert_eq!(values, vec!["one", "one", "two", "two"]);
}

#[test]
fn unclosed_placeholder_stays_literal() {
    let vars = parse("A=1\nB=${A").vars;
    assert_eq!(vars[1].value, "${A");
}

#[test]
fn lone_dollar_is_copied() {
    let vars = parse("A=1\nB=$A and $ {A} and ${A}$").vars;
    assert_eq!(vars[1].value, "$A and $ {A} and 1$");
}

#[test]
fn interpolate_resolves_against_context_then_ambient() {
    let context = vec![var("A", "ctx")];
    let ambient = vec![var("A", "amb"), var("B", "amb_b")];
    assert_eq!(interpolate("${A}-${B}-${C}", &context, &ambient), "ctx-amb_b-${C}");
    assert_eq!(interpolate("${}", &context, &ambient), "${}");
}

#[test]
fn parse_line_classifies() {
    let none: Vec<EnvVar> = Vec::new();
    let line: Vec<char> = "  # note".chars().collect();
    assert!(matches!(parse_line(&line, &none, &none), LineOutcome::Skipped));
    let line: Vec<char> = "just words".chars().collect();
    assert!(matches!(parse_line(&line, &none, &none), LineOutcome::Malformed));
    let line: Vec<char> = "K = 'v'".chars().collect();
    match parse_line(&line, &none, &none) {
        LineOutcome::Bound(e) => {
            assert_eq!(e.key, "K");
            assert_eq!(e.value, "v");
        },
        _ => panic!("expected a binding"),
    }
}

#[test]
fn trim_uses_unicode_whitespace() {
    assert_eq!(trim("\u{3000}\u{a0} a b \u{2003}\n"), "a b");
    assert_eq!(trim("   "), "");
}

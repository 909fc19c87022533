//! Query templates against queries.
use std::sync::Arc;

use pg_whitelist_proxy::scan::{ScanError, ScanResult, ScanToken, Token, TokenCatalog};
use pg_whitelist_proxy::template::matcher::query::{
    MatchErrorReason, MatchQueryError, QueryTemplateMatcher, TemplateError,
};
use pg_whitelist_proxy::template::matcher::variable::VariableTemplateMatcher;
use pg_whitelist_proxy::template::pattern::QueryPatternRule;
use pg_whitelist_proxy::template::variables::VariableTemplates;

/// The token types that occur in these tests.
const TOKENS: [&str; 40] = [
    "SCONST", "ICONST", "IDENT", "Op", "TYPECAST", "LESS_EQUALS", "GREATER_EQUALS", "C_COMMENT",
    "SQL_COMMENT", "ASCII_40", "ASCII_41", "ASCII_42", "ASCII_43", "ASCII_44", "ASCII_59",
    "ASCII_61", "ASCII_91", "ASCII_93", "SELECT", "FROM", "WHERE", "AND", "OR", "ORDER", "BY",
    "BETWEEN", "ARRAY", "TEXT_P", "VALUES", "TRUE_P", "DROP", "TABLE", "CURRENT_USER", "INTERVAL",
    "TIMESTAMP", "NAME_P", "PARAM", "FCONST", "NOT_EQUALS", "ASCII_45",
];

/// The words among them that are keywords.
const KEYWORDS: [(&str, &str); 18] = [
    ("select", "SELECT"),
    ("from", "FROM"),
    ("where", "WHERE"),
    ("and", "AND"),
    ("or", "OR"),
    ("order", "ORDER"),
    ("by", "BY"),
    ("between", "BETWEEN"),
    ("array", "ARRAY"),
    ("text", "TEXT_P"),
    ("values", "VALUES"),
    ("true", "TRUE_P"),
    ("drop", "DROP"),
    ("table", "TABLE"),
    ("current_user", "CURRENT_USER"),
    ("interval", "INTERVAL"),
    ("timestamp", "TIMESTAMP"),
    ("name", "NAME_P"),
];

fn token(name: &str) -> Token {
    let number = TOKENS.iter().position(|known| *known == name).unwrap();
    Token { number: number as i32 }
}

fn catalog() -> TokenCatalog {
    TokenCatalog { entries: TOKENS.iter().map(|name| (name.to_string(), token(name))).collect() }
}

/// Splits the little SQL of these tests into tokens, as PostgreSQL's scanner does.
fn scan(query: &str) -> ScanResult {
    let bytes = query.as_bytes();
    let mut tokens = Vec::new();
    let mut at = 0;
    while at < bytes.len() {
        let start = at;
        let rest = &query[at..];
        let is_word = |byte: &u8| byte.is_ascii_alphanumeric() || *byte == b'_';
        let name = if bytes[at].is_ascii_whitespace() {
            at += 1;
            continue;
        } else if rest.starts_with("--") {
            at += rest.find('\n').unwrap_or(rest.len());
            "SQL_COMMENT"
        } else if rest.starts_with("/*") {
            at += rest.find("*/").unwrap() + 2;
            "C_COMMENT"
        } else if bytes[at] == b'\'' {
            loop {
                at += 1 + query[at + 1..].find('\'').unwrap() + 1;
                if bytes.get(at) != Some(&b'\'') {
                    break;
                }
            }
            "SCONST"
        } else if bytes[at].is_ascii_digit() {
            at += bytes[at..].iter().take_while(|byte| byte.is_ascii_digit()).count();
            "ICONST"
        } else if is_word(&bytes[at]) {
            at += bytes[at..].iter().take_while(|byte| is_word(byte)).count();
            let word = query[start..at].to_ascii_lowercase();
            KEYWORDS.iter().find(|(text, _)| *text == word).map_or("IDENT", |(_, name)| name)
        } else {
            let (length, name) = match bytes[at] {
                b':' if rest.starts_with("::") => (2, "TYPECAST"),
                b'>' if rest.starts_with(">=") => (2, "GREATER_EQUALS"),
                b'<' if rest.starts_with("<=") => (2, "LESS_EQUALS"),
                b'|' if rest.starts_with("||") => (2, "Op"),
                b'(' => (1, "ASCII_40"),
                b')' => (1, "ASCII_41"),
                b'*' => (1, "ASCII_42"),
                b'+' => (1, "ASCII_43"),
                b',' => (1, "ASCII_44"),
                b';' => (1, "ASCII_59"),
                b'=' => (1, "ASCII_61"),
                b'[' => (1, "ASCII_91"),
                b']' => (1, "ASCII_93"),
                _ => panic!("no token begins with {rest:?}"),
            };
            at += length;
            name
        };
        tokens.push(ScanToken { token: token(name), start, end: at });
    }
    ScanResult { tokens }
}

fn variables(templates: &[(&str, &str)]) -> Arc<VariableTemplates> {
    let mut variables = VariableTemplates::new();
    for (name, template) in templates {
        let matcher = VariableTemplateMatcher::parse(template, &catalog()).unwrap();
        variables.insert(name.to_string(), matcher);
    }
    Arc::new(variables)
}

fn time_variables() -> Arc<VariableTemplates> {
    variables(&[
        ("$__timeFrom()", "@@Token(SCONST)@@"),
        ("$__timeTo()", "@@Token(SCONST)@@"),
        (
            "$filter_date",
            "between @@Token(SCONST)@@::date and @@Token(SCONST)@@::date + '1 days'::interval",
        ),
    ])
}

fn match_query(matcher: &QueryTemplateMatcher, query: &str) -> Result<(), MatchQueryError> {
    matcher.match_query(query, &Ok(scan(query.trim())))
}

#[test]
fn matches_query_with_simple_variables() {
    let matcher = QueryTemplateMatcher::parse(
        "SELECT * FROM events WHERE ts >= $__timeFrom() AND ts <= $__timeTo()",
        time_variables(),
    )
    .unwrap();

    match_query(
        &matcher,
        "SELECT * FROM events WHERE ts >= '2026-08-07T15:41:31.159Z' AND ts <= '2026-08-09T15:41:31.159Z'",
    )
    .unwrap();
}

#[test]
fn matches_query_with_complex_variable() {
    let matcher = QueryTemplateMatcher::parse(
        "SELECT * FROM events WHERE created_at $filter_date ORDER BY created_at",
        time_variables(),
    )
    .unwrap();

    match_query(
        &matcher,
        "SELECT * FROM events WHERE created_at \
         between '2026-08-07T15:41:31.159Z'::date \
         and '2026-08-09T15:41:31.159Z'::date + '1 days'::interval \
         ORDER BY created_at",
    )
    .unwrap();
}

#[test]
fn rejects_changed_fixed_query_text() {
    let matcher = QueryTemplateMatcher::parse(
        "SELECT public_name FROM users WHERE created_at >= $__timeFrom()",
        time_variables(),
    )
    .unwrap();

    assert!(match_query(
        &matcher,
        "SELECT password_hash FROM users WHERE created_at >= '2026-08-07T15:41:31.159Z'"
    )
    .is_err());
}

#[test]
fn rejects_expression_instead_of_variable_expansion() {
    let matcher = QueryTemplateMatcher::parse(
        "SELECT * FROM events WHERE created_at >= $__timeFrom() AND active = true",
        time_variables(),
    )
    .unwrap();

    assert!(match_query(
        &matcher,
        "SELECT * FROM events WHERE created_at >= '2026-08-07' OR true -- AND active = true"
    )
    .is_err());
}

#[test]
fn matches_exact_template_without_variables() {
    let matcher =
        QueryTemplateMatcher::parse("SELECT public_name FROM users", variables(&[])).unwrap();

    match_query(&matcher, "SELECT public_name FROM users").unwrap();
    assert!(match_query(&matcher, "SELECT password_hash FROM users").is_err());
    assert!(match_query(&matcher, "SELECT public_name FROM users; SELECT 1").is_err());
}

#[test]
fn errors_include_rule_and_query_context() {
    let matcher = QueryTemplateMatcher::parse("SELECT 1", variables(&[])).unwrap();

    let err = match_query(&matcher, "SELECT 2").unwrap_err();
    let MatchQueryError::Match(err) = err else {
        panic!("expected match error");
    };

    assert!(matches!(err.reason, MatchErrorReason::ExactMismatch));
    assert_eq!(err.expected, QueryPatternRule::Exact("SELECT <DIVERGENCE>1".to_string()));
    assert_eq!(err.actual, "SELECT <DIVERGENCE>2");
}

#[test]
fn variable_errors_are_statically_typed() {
    let matcher = QueryTemplateMatcher::parse("SELECT $__timeFrom()", time_variables()).unwrap();

    let err = match_query(&matcher, "SELECT 123").unwrap_err();
    let MatchQueryError::Match(err) = err else {
        panic!("expected match error");
    };

    assert!(matches!(err.reason, MatchErrorReason::VariableMismatch(_)));
}

#[test]
fn unmatched_suffix_error_is_statically_typed() {
    let matcher = QueryTemplateMatcher::parse("SELECT $__timeFrom()", time_variables()).unwrap();

    let err = match_query(&matcher, "SELECT '2026-08-07'; DROP TABLE events").unwrap_err();
    let MatchQueryError::Match(err) = err else {
        panic!("expected match error");
    };

    assert!(matches!(err.reason, MatchErrorReason::UnmatchedSuffix));
    assert_eq!(err.expected, QueryPatternRule::Exact(String::new()));
    assert_eq!(err.actual, "; DROP TABLE events");
}

#[test]
fn matches_repeated_variable_occurrences() {
    let matcher = QueryTemplateMatcher::parse(
        "SELECT * FROM events WHERE ts BETWEEN $__timeFrom() AND $__timeFrom()",
        time_variables(),
    )
    .unwrap();

    match_query(
        &matcher,
        "SELECT * FROM events WHERE ts BETWEEN '2026-08-07' AND '2026-08-07'",
    )
    .unwrap();
}

#[test]
fn matches_variable_at_start_of_template() {
    let matcher =
        QueryTemplateMatcher::parse("$__timeFrom()::timestamp", time_variables()).unwrap();

    match_query(&matcher, "'2026-08-07'::timestamp").unwrap();
}

#[test]
fn matches_adjacent_variable_placeholders() {
    let variables =
        variables(&[("$value", "@@Token(SCONST)@@::"), ("$type", "@@Token(TEXT_P)@@")]);
    let matcher = QueryTemplateMatcher::parse("SELECT $value$type", variables).unwrap();

    match_query(&matcher, "SELECT 'hello'::text").unwrap();
}

#[test]
fn rejects_wrong_token_type_for_variable() {
    let matcher = QueryTemplateMatcher::parse("SELECT $__timeFrom()", time_variables()).unwrap();

    assert!(match_query(&matcher, "SELECT 123").is_err());
}

#[test]
fn rejects_unmatched_suffix_after_final_variable() {
    let matcher = QueryTemplateMatcher::parse("SELECT $__timeFrom()", time_variables()).unwrap();

    assert!(match_query(&matcher, "SELECT '2026-08-07'; DROP TABLE events").is_err());
}

#[test]
fn rejects_empty_variable_name() {
    let variables = variables(&[("", "@@Token(SCONST)@@")]);

    let err = QueryTemplateMatcher::parse("SELECT 1", variables).unwrap_err();

    assert!(matches!(err, TemplateError::EmptyVariableName));
}

#[test]
fn longest_variable_name_wins() {
    let variables =
        variables(&[("$filter", "@@Token(SCONST)@@"), ("$filter_date", "@@Token(ICONST)@@")]);

    let matcher = QueryTemplateMatcher::parse("SELECT $filter_date", variables).unwrap();

    match_query(&matcher, "SELECT 123").unwrap();
    assert!(match_query(&matcher, "SELECT '123'_date").is_err());
}

#[test]
fn longest_variable_name_wins_whatever_the_order() {
    let variables = variables(&[
        ("$a", "@@Token(ICONST)@@"),
        ("$ab", "@@Token(SCONST)@@"),
        ("b$a", "@@Token(IDENT)@@"),
    ]);

    // The name that begins first is taken, and the others are looked for behind it.
    let matcher = QueryTemplateMatcher::parse("$ab$a x $a", variables).unwrap();

    match_query(&matcher, "'s'1 x 2").unwrap();
    assert!(match_query(&matcher, "1 id x 2").is_err());
}

#[test]
fn names_with_wide_characters_are_found() {
    let variables = variables(&[("$größe", "@@Token(ICONST)@@")]);
    let matcher = QueryTemplateMatcher::parse("'ä' $größe 'ö'", variables).unwrap();

    match_query(&matcher, "'ä' 42 'ö'").unwrap();
    assert!(match_query(&matcher, "'ä' '42' 'ö'").is_err());
}

#[test]
fn a_query_that_ends_early_is_reported() {
    let variables = variables(&[("$x", "@@Token(SCONST)@@")]);
    let matcher = QueryTemplateMatcher::parse("$x$x", variables).unwrap();

    let MatchQueryError::Match(err) = match_query(&matcher, "'a'").unwrap_err() else {
        panic!("expected match error");
    };

    assert!(matches!(err.reason, MatchErrorReason::VariableMismatch(_)));
    assert_eq!(err.expected, QueryPatternRule::Variable("$x".to_string()));
    assert_eq!(err.actual, "");

    // A token that reaches beyond the query leaves nothing for the next rule.
    let beyond = ScanResult { tokens: vec![ScanToken { token: token("SCONST"), start: 0, end: 9 }] };
    let MatchQueryError::Match(err) = matcher.match_query("'a'", &Ok(beyond)).unwrap_err() else {
        panic!("expected match error");
    };

    assert!(matches!(err.reason, MatchErrorReason::QueryEof));
}

#[test]
fn scan_errors_are_passed_on() {
    let matcher = QueryTemplateMatcher::parse("SELECT 1", variables(&[])).unwrap();
    let scan = Err(ScanError { message: "unterminated quoted string".to_string() });

    let MatchQueryError::Scan(err) = matcher.match_query("SELECT 1", &scan).unwrap_err() else {
        panic!("expected scan error");
    };

    assert_eq!(err.message, "unterminated quoted string");
}

#[test]
fn white_space_around_templates_and_queries_does_not_count() {
    let matcher =
        QueryTemplateMatcher::parse(" \n-- report\nSELECT 1\u{a0}\n", variables(&[])).unwrap();

    assert_eq!(matcher.name(), Some("report"));
    match_query(&matcher, "-- report\nSELECT 1").unwrap();
    match_query(&matcher, "\t-- report\nSELECT 1\u{3000}").unwrap();
    assert!(match_query(&matcher, "-- report\nSELECT  1").is_err());
}

#[test]
fn queries_are_named_by_a_comment_on_their_first_line() {
    for (query, name) in [
        ("-- report\nSELECT 1", Some("report")),
        ("  --  two words \r\nSELECT 1", Some("two words")),
        ("--\nSELECT 1", Some("")),
        ("-- only", Some("only")),
        ("SELECT 1 -- report", None),
        ("\n-- report\nSELECT 1", None),
        ("", None),
    ] {
        assert_eq!(QueryTemplateMatcher::query_name(query), name, "{query:?}");
    }
}

#[test]
fn a_variable_that_is_set_again_has_its_new_template() {
    let variables = variables(&[("$x", "@@Token(SCONST)@@"), ("$x", "@@Token(ICONST)@@")]);

    assert_eq!(variables.len(), 1);
    let matcher = QueryTemplateMatcher::parse("$x", variables).unwrap();

    match_query(&matcher, "1").unwrap();
    assert!(match_query(&matcher, "'1'").is_err());
}

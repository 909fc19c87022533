//! Variable templates against queries.
use pg_whitelist_proxy::scan::{ScanResult, ScanToken, Token, TokenCatalog};
use pg_whitelist_proxy::template::matcher::variable::{
    MatchError, MatchErrorReason, PatternRule, UnknownToken, VariableTemplateMatcher,
};

/// The token types that occur in these tests.
const TOKENS: [&str; 40] = [
    "SCONST", "ICONST", "IDENT", "Op", "TYPECAST", "LESS_EQUALS", "GREATER_EQUALS", "C_COMMENT",
    "SQL_COMMENT", "ASCII_40", "ASCII_41", "ASCII_42", "ASCII_43", "ASCII_44", "ASCII_59",
    "ASCII_61", "ASCII_91", "ASCII_93", "SELECT", "FROM", "WHERE", "AND", "OR", "ORDER", "BY",
    "BETWEEN", "ARRAY", "TEXT_P", "VALUES", "TRUE_P", "DROP", "TABLE", "CURRENT_USER", "INTERVAL",
    "TIMESTAMP", "NAME_P", "PARAM", "FCONST", "NOT_EQUALS", "ASCII_45",
];

/// The words among them that are keywords.
const KEYWORDS: [(&str, &str); 18] = [
    ("select", "SELECT"),
    ("from", "FROM"),
    ("where", "WHERE"),
    ("and", "AND"),
    ("or", "OR"),
    ("order", "ORDER"),
    ("by", "BY"),
    ("between", "BETWEEN"),
    ("array", "ARRAY"),
    ("text", "TEXT_P"),
    ("values", "VALUES"),
    ("true", "TRUE_P"),
    ("drop", "DROP"),
    ("table", "TABLE"),
    ("current_user", "CURRENT_USER"),
    ("interval", "INTERVAL"),
    ("timestamp", "TIMESTAMP"),
    ("name", "NAME_P"),
];

fn token(name: &str) -> Token {
    let number = TOKENS.iter().position(|known| *known == name).unwrap();
    Token { number: number as i32 }
}

fn catalog() -> TokenCatalog {
    TokenCatalog { entries: TOKENS.iter().map(|name| (name.to_string(), token(name))).collect() }
}

/// Splits the little SQL of these tests into tokens, as PostgreSQL's scanner does.
fn scan(query: &str) -> ScanResult {
    let bytes = query.as_bytes();
    let mut tokens = Vec::new();
    let mut at = 0;
    while at < bytes.len() {
        let start = at;
        let rest = &query[at..];
        let is_word = |byte: &u8| byte.is_ascii_alphanumeric() || *byte == b'_';
        let name = if bytes[at].is_ascii_whitespace() {
            at += 1;
            continue;
        } else if rest.starts_with("--") {
            at += rest.find('\n').unwrap_or(rest.len());
            "SQL_COMMENT"
        } else if rest.starts_with("/*") {
            at += rest.find("*/").unwrap() + 2;
            "C_COMMENT"
        } else if bytes[at] == b'\'' {
            loop {
                at += 1 + query[at + 1..].find('\'').unwrap() + 1;
                if bytes.get(at) != Some(&b'\'') {
                    break;
                }
            }
            "SCONST"
        } else if bytes[at].is_ascii_digit() {
            at += bytes[at..].iter().take_while(|byte| byte.is_ascii_digit()).count();
            "ICONST"
        } else if is_word(&bytes[at]) {
            at += bytes[at..].iter().take_while(|byte| is_word(byte)).count();
            let word = query[start..at].to_ascii_lowercase();
            KEYWORDS.iter().find(|(text, _)| *text == word).map_or("IDENT", |(_, name)| name)
        } else {
            let (length, name) = match bytes[at] {
                b':' if rest.starts_with("::") => (2, "TYPECAST"),
                b'>' if rest.starts_with(">=") => (2, "GREATER_EQUALS"),
                b'<' if rest.starts_with("<=") => (2, "LESS_EQUALS"),
                b'|' if rest.starts_with("||") => (2, "Op"),
                b'(' => (1, "ASCII_40"),
                b')' => (1, "ASCII_41"),
                b'*' => (1, "ASCII_42"),
                b'+' => (1, "ASCII_43"),
                b',' => (1, "ASCII_44"),
                b';' => (1, "ASCII_59"),
                b'=' => (1, "ASCII_61"),
                b'[' => (1, "ASCII_91"),
                b']' => (1, "ASCII_93"),
                _ => panic!("no token begins with {rest:?}"),
            };
            at += length;
            name
        };
        tokens.push(ScanToken { token: token(name), start, end: at });
    }
    ScanResult { tokens }
}

fn run_match(template: &str, query: &str, start: usize) -> (Result<(), MatchError>, usize) {
    let matcher = VariableTemplateMatcher::parse(template, &catalog()).unwrap();
    let scan_result = scan(query);
    let mut pos = start;
    let result = matcher.match_query(query, &scan_result, &mut pos);
    (result, pos)
}

fn assert_full_match(template: &str, query: &str) {
    let (result, pos) = run_match(template, query, 0);
    result.unwrap_or_else(|err| {
        panic!("expected match: template={template:?} query={query:?}: {err:?}")
    });
    assert_eq!(pos, query.len(), "matcher returned success but did not consume the whole query");
}

fn assert_not_full_match(template: &str, query: &str) {
    let (result, pos) = run_match(template, query, 0);
    assert!(
        result.is_err() || pos != query.len(),
        "unexpected full match: template={template:?} query={query:?}"
    );
}

#[test]
fn exact_query_matches() {
    assert_full_match(
        "SELECT id FROM users WHERE active = true",
        "SELECT id FROM users WHERE active = true",
    );
}

#[test]
fn exact_query_is_not_normalized() {
    assert_not_full_match("SELECT id FROM users", "select id FROM users");

    assert_not_full_match("SELECT id FROM users", "SELECT  id FROM users");
}

#[test]
fn sconst_matches_different_string_literals() {
    assert_full_match(
        "SELECT * FROM users WHERE name = @@Token(SCONST)@@",
        "SELECT * FROM users WHERE name = 'alice'",
    );

    assert_full_match(
        "SELECT * FROM users WHERE name = @@Token(SCONST)@@",
        "SELECT * FROM users WHERE name = 'bob'",
    );
}

#[test]
fn multiple_sconst_placeholders_match() {
    let template =
        "between @@Token(SCONST)@@::date and @@Token(SCONST)@@::date + '1 days'::interval";

    assert_full_match(
        template,
        "between '2026-08-07T15:41:31.159Z'::date and \
         '2026-08-09T15:41:31.159Z'::date + '1 days'::interval",
    );
}

#[test]
fn mixed_token_types_match() {
    assert_full_match(
        "VALUES (@@Token(SCONST)@@, @@Token(ICONST)@@, @@Token(IDENT)@@)",
        "VALUES ('hello', 42, some_identifier)",
    );
}

#[test]
fn sconst_array_matches_empty_array() {
    assert_full_match("@@Array(SCONST)@@", "array[]");
    assert_full_match("@@Array(SCONST)@@", "array[ ]");
}

#[test]
fn sconst_array_matches_one_or_more_elements() {
    assert_full_match("@@Array(SCONST)@@", "array['one']");
    assert_full_match("@@Array(SCONST)@@", "array['one', 'two', 'three']");
}

#[test]
fn array_template_composes_with_fixed_sql_and_token_templates() {
    assert_full_match(
        "@@Array(SCONST)@@::text[], @@Array(SCONST)@@::text[], @@Token(SCONST)@@",
        "array[ ]::text[], array['final_ban', 'androidx']::text[], ''",
    );
}

#[test]
fn array_element_token_type_must_match() {
    assert_not_full_match("@@Array(SCONST)@@", "array[1, 2]");
    assert_not_full_match("@@Array(SCONST)@@", "array['one', 2]");
    assert_not_full_match("@@Array(ICONST)@@", "array[1, 'two']");
}

#[test]
fn expressions_inside_array_are_rejected() {
    assert_not_full_match("@@Array(SCONST)@@", "array['one' || 'two']");
    assert_not_full_match("@@Array(SCONST)@@", "array['safe', current_user]");
}

#[test]
fn token_type_must_match() {
    assert_not_full_match(
        "SELECT * FROM users WHERE id = @@Token(ICONST)@@",
        "SELECT * FROM users WHERE id = '42'",
    );

    assert_not_full_match(
        "SELECT * FROM users WHERE name = @@Token(SCONST)@@",
        "SELECT * FROM users WHERE name = 42",
    );
}

#[test]
fn fixed_sql_cannot_change() {
    assert_not_full_match(
        "SELECT public_name FROM users WHERE id = @@Token(ICONST)@@",
        "SELECT password_hash FROM users WHERE id = 1",
    );
}

#[test]
fn injection_after_string_token_is_rejected() {
    assert_not_full_match(
        "SELECT * FROM users WHERE name = @@Token(SCONST)@@ AND active = true",
        "SELECT * FROM users WHERE name = '' OR true --' AND active = true",
    );

    assert_not_full_match(
        "SELECT * FROM users WHERE created_at >= @@Token(SCONST)@@::timestamp",
        "SELECT * FROM users WHERE created_at >= '2026-01-01'; DROP TABLE users; --",
    );
}

#[test]
fn dangerous_looking_text_inside_one_string_literal_is_allowed() {
    // The contents look like SQL, but PostgreSQL scans the whole value
    // as one SCONST token, so it remains data rather than SQL syntax.
    assert_full_match(
        "SELECT * FROM users WHERE name = @@Token(SCONST)@@",
        "SELECT * FROM users WHERE name = ''' OR true --'",
    );
}

#[test]
fn extra_whitespace_before_token_placeholder_are_accepted() {
    assert_full_match("SELECT @@Token(SCONST)@@", "SELECT  'hello'");
}

#[test]
fn comment_before_placeholder_is_rejected() {
    assert_not_full_match("SELECT @@Token(SCONST)@@", "SELECT /* injected */ 'hello'");
}

#[test]
fn can_match_from_nonzero_position() {
    let query = "prefix '2026-08-09'::date suffix";
    let start = "prefix ".len();

    let (result, pos) = run_match("@@Token(SCONST)@@::date", query, start);

    result.unwrap();
    assert_eq!(pos, "prefix '2026-08-09'::date".len());
    assert_eq!(&query[pos..], " suffix");
}

#[test]
fn utf8_before_placeholder_uses_byte_positions_correctly() {
    assert_full_match("SELECT 'привет' || @@Token(SCONST)@@", "SELECT 'привет' || 'мир'");
}

#[test]
fn trailing_sql_is_left_unconsumed() {
    // The matcher takes a segment of the query. Whoever wants the whole query to match has to look
    // at the position that was reached.
    let query = "SELECT 'ok'; DROP TABLE users";
    let (result, pos) = run_match("SELECT @@Token(SCONST)@@", query, 0);

    assert!(result.is_ok());
    assert_eq!(&query[pos..], "; DROP TABLE users");
}

#[test]
fn unknown_token_type_is_rejected_while_parsing_template() {
    let result =
        VariableTemplateMatcher::parse("SELECT @@Token(NOT_A_REAL_PG_TOKEN)@@", &catalog());
    assert!(result.is_err());

    let result =
        VariableTemplateMatcher::parse("SELECT @@TokenAny(NOT_A_REAL_PG_TOKEN)@@", &catalog());
    assert!(result.is_err());
}

#[test]
fn the_first_unknown_token_type_is_reported() {
    for template in [
        "@@Token(SCONST)@@ @@Token(NOPE)@@ @@Token(NEVER)@@",
        "@@TokenAny(SCONST,NOPE,NEVER)@@",
        "@@Array(NOPE)@@",
    ] {
        assert_eq!(
            VariableTemplateMatcher::parse(template, &catalog()).unwrap_err(),
            UnknownToken { name: "NOPE".to_string() }
        );
    }
    let without_arrays = TokenCatalog { entries: vec![("SCONST".to_string(), token("SCONST"))] };
    assert_eq!(
        VariableTemplateMatcher::parse("@@Array(SCONST)@@", &without_arrays).unwrap_err(),
        UnknownToken { name: "ARRAY".to_string() }
    );
}

#[test]
fn token_any_takes_all_tokens_of_its_types() {
    let query = "1 'two' 3 rest";
    let (result, pos) = run_match("@@TokenAny(SCONST,ICONST)@@", query, 0);

    result.unwrap();
    assert_eq!(&query[pos..], "rest");

    let (result, pos) = run_match("@@TokenAny(SCONST)@@", query, 0);
    result.unwrap();
    assert_eq!(pos, 0);

    // Where no token of another type follows, the position stays.
    let (result, pos) = run_match("@@TokenAny(ICONST)@@", "1 2", 0);
    result.unwrap();
    assert_eq!(pos, 0);
}

#[test]
fn each_reason_has_its_cause() {
    let reason = |template: &str, query: &str, start: usize| {
        let (result, _) = run_match(template, query, start);
        result.unwrap_err().reason
    };

    assert_eq!(reason("a", "a", 2), MatchErrorReason::QueryEof);
    assert_eq!(reason("@@Token(SCONST)@@", "'é'", 2), MatchErrorReason::QueryEof);
    assert_eq!(
        reason("SELECT @@Token(SCONST)@@", "SELECT ", 0),
        MatchErrorReason::TokenMissing(token("SCONST"))
    );
    assert_eq!(reason("SELECT", "select", 0), MatchErrorReason::ExactMismatch);
    assert_eq!(
        reason("@@Token(SCONST)@@", "1", 0),
        MatchErrorReason::WrongTokenType(token("ICONST"))
    );
    for query in ["array[", "array['a'", "array['a',"] {
        assert_eq!(reason("@@Array(SCONST)@@", query, 0), MatchErrorReason::ArrayNotTerminated);
    }
    assert_eq!(
        reason("@@Array(SCONST)@@", "array['a',]", 0),
        MatchErrorReason::WrongTokenType(token("ASCII_93"))
    );
    assert_eq!(
        reason("@@Array(SCONST)@@", "array", 0),
        MatchErrorReason::TokenMissing(token("ASCII_91"))
    );
}

#[test]
fn a_failed_rule_is_reported_with_the_text_where_it_was_tried() {
    let (result, pos) = run_match("between @@Token(SCONST)@@", "between 1 and 2", 0);
    let error = result.unwrap_err();

    assert_eq!(pos, "between ".len());
    assert!(matches!(error.expected, PatternRule::Token(expected) if expected == token("SCONST")));
    assert_eq!(error.actual, "1 and 2");

    let (result, _) = run_match("between 2", "between 1 and 2", 0);
    let error = result.unwrap_err();

    assert!(matches!(&error.expected, PatternRule::Exact(text) if text == "between <DIVERGENCE>2"));
    assert_eq!(error.actual, "between <DIVERGENCE>1 and 2");
}

//! The language of variable templates.
use pg_whitelist_proxy::template::parser::{Parser, Part};

/// The parts of a template, each written out.
fn parts(template: &str) -> Vec<String> {
    Parser::parse(template).iter().map(|part| format!("{part:?}")).collect()
}

/// The template that parts were read from.
fn spelled(parts: &[Part]) -> String {
    parts
        .iter()
        .map(|part| match part {
            Part::Text(text) => text.clone(),
            Part::Token(name) => format!("@@Token({name})@@"),
            Part::TokenAny(names) => format!("@@TokenAny({})@@", names.join(",")),
            Part::Array(name) => format!("@@Array({name})@@"),
        })
        .collect()
}

#[test]
fn placeholders_and_text_take_turns() {
    assert_eq!(
        parts("between @@Token(SCONST)@@::date"),
        [r#"Text("between ")"#, r#"Token("SCONST")"#, r#"Text("::date")"#]
    );
    assert_eq!(
        parts("@@Array(ICONST)@@@@TokenAny(A_1,b)@@"),
        [r#"Array("ICONST")"#, r#"TokenAny(["A_1", "b"])"#]
    );
}

#[test]
fn what_is_no_placeholder_is_text() {
    for template in [
        "@@Token()@@",
        "@@Token(A B)@@",
        "@@Token(A)@",
        "@@token(A)@@",
        "@@TokenAny(A,)@@",
        "@@TokenAny(A, B)@@",
        "@@Other(A)@@",
        "@@",
        "plain",
    ] {
        assert_eq!(parts(template), [format!("Text({template:?})")]);
    }
}

#[test]
fn a_placeholder_is_found_behind_a_broken_one() {
    assert_eq!(parts("@@Token(@@Token(A)@@"), [r#"Text("@@Token(")"#, r#"Token("A")"#]);
    assert_eq!(parts("@@@Token(A)@@@"), [r#"Text("@")"#, r#"Token("A")"#, r#"Text("@")"#]);
}

#[test]
fn the_empty_template_has_no_parts() {
    assert!(Parser::parse("").is_empty());
}

#[test]
fn parts_spell_the_template() {
    for template in [
        "",
        "plain é text",
        "@@Token(A)@@",
        "x@@Array(B)@@y@@TokenAny(C,D,E)@@@@Token(@@z",
    ] {
        assert_eq!(spelled(&Parser::parse(template)), template);
    }
}

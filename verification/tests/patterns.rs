//! Query templates as lists of rules.
use pg_whitelist_proxy::search::NameMatch;
use pg_whitelist_proxy::template::pattern::{build_pattern, QueryPatternRule};

fn exact(text: &str) -> QueryPatternRule {
    QueryPatternRule::Exact(text.to_string())
}

fn variable(name: &str) -> QueryPatternRule {
    QueryPatternRule::Variable(name.to_string())
}

#[test]
fn rules_spell_the_template() {
    let names = vec!["$x".to_string(), "$größe".to_string()];
    let template = "é $x$größe.";
    let found = vec![
        NameMatch { name: 0, start: 3, end: 5 },
        NameMatch { name: 1, start: 5, end: 13 },
    ];

    let pattern = build_pattern(template, &names, &found);

    assert_eq!(pattern, [exact("é "), variable("$x"), variable("$größe"), exact(".")]);
    let spelled: String = pattern
        .iter()
        .map(|rule| match rule {
            QueryPatternRule::Exact(text) => text.as_str(),
            QueryPatternRule::Variable(name) => name.as_str(),
        })
        .collect();
    assert_eq!(spelled, template);
}

#[test]
fn a_template_without_names_is_one_text() {
    let names = vec!["$x".to_string()];

    assert_eq!(build_pattern("SELECT 1", &names, &vec![]), [exact("SELECT 1")]);
    assert_eq!(build_pattern("", &names, &vec![]), []);
    let found = vec![NameMatch { name: 0, start: 0, end: 2 }];
    assert_eq!(build_pattern("$x", &names, &found), [variable("$x")]);
}

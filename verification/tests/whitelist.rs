//! The whitelist of a dashboard.
use std::sync::Arc;
use std::time::Duration;

use moka::future::Cache;
use pg_whitelist_proxy::scan::{ScanError, ScanResult, ScanToken, Token, TokenCatalog};
use pg_whitelist_proxy::scope::DashboardScope;
use pg_whitelist_proxy::template::matcher::query::TemplateError;
use pg_whitelist_proxy::template::matcher::variable::VariableTemplateMatcher;
use pg_whitelist_proxy::template::variables::VariableTemplates;
use pg_whitelist_proxy::whitelist::{
    decide, decide_early, query_is_allowed, AccessError, QueryWhitelist, WHITELIST_CACHE_CAPACITY,
    WHITELIST_FETCH_TIMEOUT_SECS, WHITELIST_REFRESH_INTERVAL_SECS,
};

fn scope(org_id: u64, dashboard_uid: &str) -> DashboardScope {
    DashboardScope { org_id, dashboard_uid: dashboard_uid.to_string() }
}

fn whitelist(templates: &[&str]) -> QueryWhitelist {
    let templates = templates.iter().map(|template| template.to_string()).collect();
    QueryWhitelist::build(&templates, &Arc::new(VariableTemplates::new())).unwrap()
}

/// What the scanner says of a query of whose tokens nothing depends.
fn no_tokens() -> Result<ScanResult, ScanError> {
    Ok(ScanResult { tokens: vec![] })
}

fn allowed(whitelist: &QueryWhitelist, query: &str) -> bool {
    query_is_allowed(whitelist, query, &no_tokens()).is_ok()
}

#[test]
fn missing_scope_and_exact_ping_never_fetch() {
    let dashboard = Some(scope(1, "dashboard"));

    for context in [&None, &dashboard] {
        for query in ["-- ping", " \n-- ping\t\n"] {
            assert!(matches!(decide_early(context, query), Some(Ok(()))));
        }
    }
    for query in ["SELECT 1", "-- report\nSELECT 1", "-- ping\nSELECT 1"] {
        assert!(matches!(decide_early(&None, query), Some(Err(AccessError::MissingScope))));
        assert!(decide_early(&dashboard, query).is_none());
    }
}

#[test]
fn named_queries_are_isolated_by_whitelist() {
    let templates = ["-- report\nSELECT 1", "-- report\nSELECT 2", "-- report\nSELECT 3"];
    let whitelists: Vec<QueryWhitelist> =
        templates.iter().map(|template| whitelist(&[template])).collect();

    for (dashboard, whitelist) in whitelists.iter().enumerate() {
        for (owner, query) in templates.iter().enumerate() {
            assert_eq!(allowed(whitelist, query), dashboard == owner);
        }
        assert!(!allowed(whitelist, "-- ping\nSELECT 1"));
    }
}

#[test]
fn a_failed_lookup_lets_nothing_pass() {
    let failed = Err("scripted fetch failure".to_string());
    let query = "-- report\nSELECT 1";

    let error = decide(&failed, query, &no_tokens()).unwrap_err();
    assert!(matches!(
        error,
        AccessError::WhitelistUnavailable(message) if message.contains("scripted fetch failure")
    ));

    let fetched = Ok(whitelist(&[query]));
    assert!(decide(&fetched, query, &no_tokens()).is_ok());
}

#[test]
fn whitelist_cache_has_bounded_capacity_and_ttl() {
    let cache: Cache<u64, u64> = Cache::builder()
        .max_capacity(WHITELIST_CACHE_CAPACITY)
        .time_to_live(Duration::from_secs(WHITELIST_REFRESH_INTERVAL_SECS))
        .build();
    let policy = cache.policy();

    assert_eq!(policy.time_to_live(), Some(Duration::from_secs(30)));
    assert_eq!(policy.max_capacity(), Some(1024));
    assert_eq!(WHITELIST_FETCH_TIMEOUT_SECS, 10);
}

#[test]
fn the_first_template_of_a_name_stands() {
    let whitelist = whitelist(&["-- report\nSELECT 1", "--report \nSELECT 2", "-- other\nSELECT 2"]);

    assert_eq!(whitelist.len(), 2);
    assert!(allowed(&whitelist, "-- report\nSELECT 1"));
    assert!(!allowed(&whitelist, "--report \nSELECT 2"));
    assert!(allowed(&whitelist, "-- other\nSELECT 2"));
}

#[test]
fn any_template_without_a_name_serves_queries_without_a_name() {
    let whitelist = whitelist(&["SELECT 1", "-- report\nSELECT 3", "SELECT 2", "SELECT 1"]);

    assert_eq!(whitelist.len(), 4);
    assert!(allowed(&whitelist, "SELECT 1"));
    assert!(allowed(&whitelist, " SELECT 2 "));
    assert!(!allowed(&whitelist, "SELECT 3"));
    // The name is looked for on the first line of the query as it came.
    assert!(!allowed(&whitelist, "\n-- report\nSELECT 3"));
}

#[test]
fn each_refusal_has_its_cause() {
    let whitelist = whitelist(&["-- report\nSELECT 1", "SELECT 1"]);
    let refusal = |query: &str| query_is_allowed(&whitelist, query, &no_tokens()).unwrap_err();

    assert!(matches!(refusal("-- other\nSELECT 1"), AccessError::NamedQueryNotFound));
    assert!(matches!(refusal("-- report\nSELECT 2"), AccessError::NamedQueryRejected(_)));
    assert!(matches!(refusal("SELECT 2"), AccessError::NoUnnamedMatch));
}

#[test]
fn without_templates_nothing_passes() {
    let whitelist = whitelist(&[]);

    assert_eq!(whitelist.len(), 0);
    assert!(!allowed(&whitelist, "SELECT 1"));
    assert!(!allowed(&whitelist, "-- report"));
    assert!(!allowed(&whitelist, ""));
}

#[test]
fn queries_that_cannot_be_scanned_do_not_pass() {
    let whitelist = whitelist(&["-- report\nSELECT 1", "SELECT 1"]);
    let scan = Err(ScanError { message: "syntax error".to_string() });

    assert!(query_is_allowed(&whitelist, "SELECT 1", &scan).is_err());
    assert!(query_is_allowed(&whitelist, "-- report\nSELECT 1", &scan).is_err());
}

#[test]
fn all_templates_share_the_variables() {
    let number = Token { number: 1 };
    let catalog = TokenCatalog { entries: vec![("ICONST".to_string(), number)] };
    let mut variables = VariableTemplates::new();
    let matcher = VariableTemplateMatcher::parse("@@Token(ICONST)@@", &catalog).unwrap();
    variables.insert("$n".to_string(), matcher);
    let templates = vec!["SELECT $n".to_string(), "-- limit\nSELECT $n".to_string()];

    let whitelist = QueryWhitelist::build(&templates, &Arc::new(variables)).unwrap();

    for (query, start) in [("SELECT 42", 7), ("-- limit\nSELECT 42", 16)] {
        let tokens = vec![ScanToken { token: number, start, end: start + 2 }];
        assert!(query_is_allowed(&whitelist, query, &Ok(ScanResult { tokens })).is_ok());
        assert!(query_is_allowed(&whitelist, query, &no_tokens()).is_err());
    }
}

#[test]
fn a_variable_without_a_name_spoils_every_template() {
    let mut variables = VariableTemplates::new();
    let catalog = TokenCatalog { entries: vec![] };
    variables.insert(String::new(), VariableTemplateMatcher::parse("x", &catalog).unwrap());
    let variables = Arc::new(variables);

    let error = QueryWhitelist::build(&vec!["SELECT 1".to_string()], &variables).err().unwrap();

    assert!(matches!(error, TemplateError::EmptyVariableName));
    assert_eq!(QueryWhitelist::build(&vec![], &variables).unwrap().len(), 0);
}

#[test]
fn what_passes_still_passes_with_more_templates() {
    let templates = ["SELECT 1", "-- report\nSELECT 2", "-- report\nSELECT 3", "SELECT 4"];

    for count in 0..templates.len() {
        let fewer = whitelist(&templates[..count]);
        let more = whitelist(&templates[..count + 1]);
        for query in templates {
            assert!(!allowed(&fewer, query) || allowed(&more, query));
        }
    }
}

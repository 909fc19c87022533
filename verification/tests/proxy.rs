//! The proxy and its configuration.
use pg_whitelist_proxy::config::{fill_if_empty, Config, GrafanaConfig, NotSet, ProxyConfig};
use pg_whitelist_proxy::proxy::{PgProxy, VariableTemplateError};
use pg_whitelist_proxy::scan::{ScanResult, ScanToken, Token, TokenCatalog};

fn config(variable_templates: &[(&str, &str)]) -> Config {
    Config {
        proxy: ProxyConfig {
            listen_addr: "127.0.0.1:6432".to_string(),
            server_addr: "127.0.0.1:5432".to_string(),
        },
        grafana: GrafanaConfig {
            url: "http://localhost:3000".to_string(),
            username: String::new(),
            password: String::new(),
        },
        variable_templates: variable_templates
            .iter()
            .map(|(name, template)| (name.to_string(), template.to_string()))
            .collect(),
    }
}

fn catalog() -> TokenCatalog {
    TokenCatalog {
        entries: vec![
            ("SCONST".to_string(), Token { number: 261 }),
            ("ICONST".to_string(), Token { number: 266 }),
        ],
    }
}

#[test]
fn a_proxy_has_its_addresses_and_variables() {
    let config = config(&[("$a", "@@Token(SCONST)@@"), ("$b", "x")]);

    let proxy = PgProxy::new(config, &catalog()).unwrap();

    assert_eq!(proxy.listen_addr, "127.0.0.1:6432");
    assert_eq!(proxy.server_addr, "127.0.0.1:5432");
    assert_eq!(proxy.variable_templates.names(), ["$a", "$b"]);
}

#[test]
fn the_last_template_of_a_variable_stands() {
    let config = config(&[("$a", "@@Token(SCONST)@@"), ("$a", "@@Token(ICONST)@@")]);

    let proxy = PgProxy::new(config, &catalog()).unwrap();

    let tokens = vec![ScanToken { token: Token { number: 266 }, start: 0, end: 1 }];
    let mut pos = 0;
    let matcher = proxy.variable_templates.get("$a").unwrap();
    matcher.match_query("1", &ScanResult { tokens }, &mut pos).unwrap();
    assert_eq!(pos, 1);
    assert!(proxy.variable_templates.get("$b").is_none());
}

#[test]
fn unknown_token_types_are_reported_with_their_variable() {
    let config = config(&[("$a", "@@Token(SCONST)@@"), ("$b", "@@Token(NOPE)@@"), ("$c", "@@Token(NO)@@")]);

    assert_eq!(
        PgProxy::new(config, &catalog()).unwrap_err(),
        VariableTemplateError { variable: "$b".to_string(), token: "NOPE".to_string() }
    );
}

#[test]
fn only_empty_settings_are_filled() {
    let mut value = String::from("configured");
    assert_eq!(fill_if_empty(&mut value, Some("fallback".to_string())), Ok(()));
    assert_eq!(value, "configured");
    assert_eq!(fill_if_empty(&mut value, None), Ok(()));
    assert_eq!(value, "configured");

    let mut value = String::new();
    assert_eq!(fill_if_empty(&mut value, None), Err(NotSet));
    assert_eq!(fill_if_empty(&mut value, Some("fallback".to_string())), Ok(()));
    assert_eq!(value, "fallback");
}

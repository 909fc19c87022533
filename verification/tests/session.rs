//! One connection of a client.
use std::sync::Arc;

use pg_whitelist_proxy::protocol::{
    ClientMessage, ProtocolVersion, ServerMessage, TransactionStatus,
};
use pg_whitelist_proxy::scan::{ScanError, ScanResult};
use pg_whitelist_proxy::scope::{DashboardScope, ScopeError};
use pg_whitelist_proxy::session::{access_denied_fields, Action, Session, SessionError};
use pg_whitelist_proxy::template::variables::VariableTemplates;
use pg_whitelist_proxy::whitelist::{AccessError, QueryWhitelist};

fn startup(parameters: &[(&str, &str)]) -> ClientMessage {
    let parameters = [("user", "test")].iter().chain(parameters);
    ClientMessage::Startup {
        major: 3,
        minor: 0,
        parameters: parameters.map(|(key, value)| (key.to_string(), value.to_string())).collect(),
    }
}

fn started(parameters: &[(&str, &str)]) -> Session {
    let mut session = Session::new();
    assert_eq!(
        session.on_client_message(&startup(parameters)),
        Ok(Action::AcceptStartup(ProtocolVersion::V3_0))
    );
    session.on_server_message(&ServerMessage::Other);
    session.on_server_message(&ServerMessage::ReadyForQuery(TransactionStatus::Idle));
    session
}

fn query(query: &str) -> ClientMessage {
    ClientMessage::Query { query: query.to_string() }
}

fn parse(query: &str) -> ClientMessage {
    ClientMessage::Parse { query: query.to_string() }
}

fn fetched(templates: &[&str]) -> Result<QueryWhitelist, String> {
    let templates = templates.iter().map(|template| template.to_string()).collect();
    Ok(QueryWhitelist::build(&templates, &Arc::new(VariableTemplates::new())).unwrap())
}

fn no_tokens() -> Result<ScanResult, ScanError> {
    Ok(ScanResult { tokens: vec![] })
}

/// What becomes of a message, the whitelist being looked up where it is asked for.
fn handle(
    session: &mut Session,
    message: &ClientMessage,
    lookup: &Result<QueryWhitelist, String>,
) -> Action {
    let action = session.on_client_message(message).unwrap();
    if action != Action::LookUpWhitelist {
        return action;
    }
    let (query, extended) = match message {
        ClientMessage::Query { query } => (query, false),
        ClientMessage::Parse { query } => (query, true),
        _ => panic!("no query: {message:?}"),
    };
    session.on_whitelist(query, extended, lookup, &no_tokens()).0
}

#[test]
fn protocol_scope_filters_queries_and_recovers_after_rejected_parse() {
    let lookup = fetched(&["-- report\nSELECT 1"]);
    let allowed = "-- report\nSELECT 1";
    let idle = TransactionStatus::Idle;
    let mut session = started(&[("grafana.org_id", "42"), ("grafana.dashboard_uid", "first")]);
    assert_eq!(
        session.scope(),
        Some(&DashboardScope { org_id: 42, dashboard_uid: "first".to_string() })
    );

    assert_eq!(handle(&mut session, &query(allowed), &lookup), Action::Forward);

    for denied in ["-- report\nSELECT 2", "-- report\nSELECT 3"] {
        assert_eq!(handle(&mut session, &query(denied), &lookup), Action::DenyQuery(idle));
    }
    assert_eq!(
        handle(&mut session, &parse("-- report\nSELECT 2"), &lookup),
        Action::DenyParse
    );
    // Even an allowed query must be discarded until Sync after a denied Parse.
    for _ in 0..3 {
        assert_eq!(handle(&mut session, &ClientMessage::Other, &lookup), Action::Discard);
    }
    assert_eq!(handle(&mut session, &query(allowed), &lookup), Action::Discard);
    assert_eq!(handle(&mut session, &ClientMessage::Sync, &lookup), Action::FinishDenied(idle));

    assert_eq!(handle(&mut session, &query(allowed), &lookup), Action::Forward);
    assert_eq!(
        handle(&mut session, &ClientMessage::Terminate, &lookup),
        Action::ForwardAndClose
    );
}

#[test]
fn protocol_missing_scope_denies_queries_but_admin_bypasses() {
    for admin in [false, true] {
        let parameters = if admin { vec![("grafana.role", "Admin")] } else { vec![] };
        let mut session = started(&parameters);

        // No whitelist is asked for in either case.
        assert_eq!(
            session.on_client_message(&query("SELECT 123")),
            Ok(if admin { Action::Forward } else { Action::DenyQuery(TransactionStatus::Idle) })
        );
        assert_eq!(session.on_client_message(&ClientMessage::Terminate), Ok(Action::ForwardAndClose));
    }
}

#[test]
fn an_administrator_speaks_for_no_dashboard() {
    let dashboard = [("grafana.org_id", "0"), ("grafana.dashboard_uid", "not a uid")];
    let mut parameters = vec![("grafana.role", "Admin")];
    parameters.extend(dashboard);

    let mut session = started(&parameters);

    assert_eq!(session.scope(), None);
    assert_eq!(session.on_client_message(&parse("DROP TABLE users")), Ok(Action::Forward));
}

#[test]
fn other_roles_are_checked() {
    for role in ["admin", "Admin ", "Viewer", ""] {
        let mut session = started(&[("grafana.role", role)]);

        assert_eq!(session.on_client_message(&parse("SELECT 1")), Ok(Action::DenyParse));
    }
}

#[test]
fn a_ping_always_passes() {
    let mut session = started(&[]);

    assert_eq!(session.on_client_message(&query("-- ping")), Ok(Action::Forward));
    assert_eq!(session.on_client_message(&parse("\t-- ping \n")), Ok(Action::Forward));
}

#[test]
fn encryption_is_refused_before_the_startup() {
    let mut session = Session::new();

    assert_eq!(session.on_client_message(&ClientMessage::SslRequest), Ok(Action::RefuseSsl));
    assert_eq!(
        session.on_client_message(&ClientMessage::GssEncryptionRequest),
        Ok(Action::RefuseGssEncryption)
    );
    assert_eq!(session.on_client_message(&ClientMessage::NoEncryption), Ok(Action::AwaitStartup));
}

#[test]
fn protocol_versions_are_checked() {
    for (major, minor, expected) in [
        (3, 0, Ok(Action::AcceptStartup(ProtocolVersion::V3_0))),
        (3, 2, Ok(Action::AcceptStartup(ProtocolVersion::V3_2))),
        (3, 1, Err(SessionError::UnsupportedProtocol { major: 3, minor: 1 })),
        (3, 9999, Err(SessionError::UnsupportedProtocol { major: 3, minor: 9999 })),
        (2, 0, Err(SessionError::UnsupportedProtocol { major: 2, minor: 0 })),
        (4, 0, Err(SessionError::UnsupportedProtocol { major: 4, minor: 0 })),
    ] {
        let message = ClientMessage::Startup { major, minor, parameters: vec![] };

        assert_eq!(Session::new().on_client_message(&message), expected);
    }
}

#[test]
fn invalid_scopes_end_the_connection() {
    for (org_id, uid, error) in [
        ("x", "uid", ScopeError::InvalidOrgId),
        ("0", "uid", ScopeError::OrgIdNotPositive),
        ("1", "u/d", ScopeError::InvalidDashboardUid),
    ] {
        let message = startup(&[("grafana.org_id", org_id), ("grafana.dashboard_uid", uid)]);

        assert_eq!(
            Session::new().on_client_message(&message),
            Err(SessionError::InvalidScope(error))
        );
    }
}

#[test]
fn answers_carry_the_status_that_the_server_reported_last() {
    let mut session = started(&[]);
    session.on_server_message(&ServerMessage::ReadyForQuery(TransactionStatus::Transaction));
    session.on_server_message(&ServerMessage::Other);

    assert_eq!(
        session.on_client_message(&query("SELECT 1")),
        Ok(Action::DenyQuery(TransactionStatus::Transaction))
    );
    assert_eq!(session.on_client_message(&parse("SELECT 1")), Ok(Action::DenyParse));
    session.on_server_message(&ServerMessage::ReadyForQuery(TransactionStatus::Error));
    assert_eq!(session.on_client_message(&ClientMessage::Terminate), Ok(Action::Discard));
    assert_eq!(
        session.on_client_message(&ClientMessage::Sync),
        Ok(Action::FinishDenied(TransactionStatus::Error))
    );
    assert_eq!(session.on_client_message(&ClientMessage::Sync), Ok(Action::Forward));
}

#[test]
fn a_failed_lookup_denies_and_says_why() {
    let mut session = started(&[("grafana.org_id", "1"), ("grafana.dashboard_uid", "d")]);
    assert_eq!(session.on_client_message(&query("SELECT 1")), Ok(Action::LookUpWhitelist));

    let failed = Err("dashboard whitelist fetch timed out".to_string());
    let (action, verdict) = session.on_whitelist("SELECT 1", false, &failed, &no_tokens());

    assert_eq!(action, Action::DenyQuery(TransactionStatus::Idle));
    assert!(matches!(
        verdict,
        Err(AccessError::WhitelistUnavailable(message))
            if message == "dashboard whitelist fetch timed out"
    ));
}

#[test]
fn denials_have_the_code_of_missing_privileges() {
    assert_eq!(
        access_denied_fields(),
        [
            (b'S', "ERROR".to_string()),
            (b'C', "42501".to_string()),
            (b'M', "query is not permitted by the whitelist".to_string()),
        ]
    );
}

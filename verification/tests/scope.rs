//! The dashboard for which a connection speaks.
use pg_whitelist_proxy::scope::{
    DashboardScope, ScopeError, GRAFANA_DASHBOARD_UID_PARAMETER, GRAFANA_ORG_ID_PARAMETER,
};

fn scope(org_id: u64, dashboard_uid: &str) -> DashboardScope {
    DashboardScope { org_id, dashboard_uid: dashboard_uid.to_string() }
}

fn parameters(org_id: Option<&str>, uid: Option<&str>) -> Vec<(String, String)> {
    let mut parameters = Vec::new();
    for (key, value) in [(GRAFANA_ORG_ID_PARAMETER, org_id), (GRAFANA_DASHBOARD_UID_PARAMETER, uid)] {
        if let Some(value) = value {
            parameters.push((key.to_string(), value.to_string()));
        }
    }
    parameters
}

#[test]
fn startup_scope_requires_complete_valid_parameters() {
    for (org_id, uid) in [
        (None, None),
        (Some("1"), None),
        (None, Some("dashboard")),
        (Some(""), Some("dashboard")),
        (Some("1"), Some("")),
        (Some(""), Some("")),
    ] {
        let parameters = parameters(org_id, uid);

        assert_eq!(DashboardScope::from_parameters(&parameters).unwrap(), None);
    }

    for (org_id, uid) in [
        ("0", "dashboard"),
        ("-1", "dashboard"),
        ("abc", "dashboard"),
        ("18446744073709551616", "dashboard"),
        ("1", "bad/uid"),
        ("1", "bad uid"),
        ("1", " "),
    ] {
        let parameters = parameters(Some(org_id), Some(uid));

        assert!(DashboardScope::from_parameters(&parameters).is_err(), "{parameters:?}");
    }

    let parameters = parameters(Some("42"), Some("Dash_01-ab"));

    assert_eq!(
        DashboardScope::from_parameters(&parameters).unwrap(),
        Some(scope(42, "Dash_01-ab")),
    );
}

#[test]
fn each_scope_error_has_its_cause() {
    for (org_id, uid, error) in [
        ("abc", "dashboard", ScopeError::InvalidOrgId),
        ("18446744073709551616", "dashboard", ScopeError::InvalidOrgId),
        ("0", "dashboard", ScopeError::OrgIdNotPositive),
        ("0", "bad uid", ScopeError::OrgIdNotPositive),
        ("1", "bad uid", ScopeError::InvalidDashboardUid),
    ] {
        let parameters = parameters(Some(org_id), Some(uid));

        assert_eq!(DashboardScope::from_parameters(&parameters).unwrap_err(), error);
    }
}

#[test]
fn largest_org_id_and_plus_sign_are_accepted() {
    for (org_id, number) in [("18446744073709551615", u64::MAX), ("+7", 7), ("007", 7)] {
        let parameters = parameters(Some(org_id), Some("uid"));

        assert_eq!(DashboardScope::from_parameters(&parameters).unwrap(), Some(scope(number, "uid")));
    }
}

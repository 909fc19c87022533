//! Which dashboard of which organisation a connection speaks for.
use vstd::prelude::*;

use crate::decimal;
use crate::lookup;
use crate::text;

verus! {

/// The startup parameter that holds the organisation's number.
pub const GRAFANA_ORG_ID_PARAMETER: &'static str = "grafana.org_id";

/// The startup parameter that holds the dashboard's identifier.
pub const GRAFANA_DASHBOARD_UID_PARAMETER: &'static str = "grafana.dashboard_uid";

/// A dashboard, by its organisation's number and its identifier there.
#[derive(Debug, PartialEq, Eq, Hash)]
pub struct DashboardScope {
    pub org_id: u64,
    pub dashboard_uid: String,
}

/// A dashboard, its identifier taken as a sequence of characters.
pub struct ScopeView {
    pub org_id: u64,
    pub dashboard_uid: Seq<char>,
}

impl View for DashboardScope {
    type V = ScopeView;

    open spec fn view(&self) -> ScopeView {
        ScopeView { org_id: self.org_id, dashboard_uid: self.dashboard_uid@ }
    }
}

impl Clone for DashboardScope {
    fn clone(&self) -> (res: Self)
        ensures
            res == *self,
    {
        DashboardScope { org_id: self.org_id, dashboard_uid: self.dashboard_uid.clone() }
    }
}

/// The view of an optional dashboard.
pub open spec fn scope_view(scope: Option<DashboardScope>) -> Option<ScopeView> {
    match scope {
        Some(scope) => Some(scope@),
        None => None,
    }
}

/// What is wrong with startup parameters that name a dashboard.
#[derive(Clone, Copy, Debug, PartialEq, Eq, Structural)]
pub enum ScopeError {
    /// The organisation's number is no number.
    InvalidOrgId,
    /// The organisation's number is zero.
    OrgIdNotPositive,
    /// The dashboard's identifier has a character that identifiers do not have.
    InvalidDashboardUid,
}

/// The characters of which dashboard identifiers are made.
pub open spec fn is_uid_char(c: char) -> bool {
    ||| 'a' <= c <= 'z'
    ||| 'A' <= c <= 'Z'
    ||| '0' <= c <= '9'
    ||| c == '_'
    ||| c == '-'
}

/// Whether `s` is made of the characters of dashboard identifiers.
pub open spec fn is_uid(s: Seq<char>) -> bool {
    forall|i: int| 0 <= i < s.len() ==> is_uid_char(#[trigger] s[i])
}

/// The value of a startup parameter that is there and not empty.
pub open spec fn given(parameters: Seq<(String, String)>, name: Seq<char>) -> Option<Seq<char>> {
    match lookup::first_named(parameters, name) {
        Some(value) => if value@.len() > 0 {
            Some(value@)
        } else {
            None
        },
        None => None,
    }
}

/// The dashboard that startup parameters name: none unless both are given, and an error if they
/// are given and wrong.
pub open spec fn scope_of(parameters: Seq<(String, String)>) -> Result<
    Option<ScopeView>,
    ScopeError,
> {
    match (
        given(parameters, GRAFANA_ORG_ID_PARAMETER@),
        given(parameters, GRAFANA_DASHBOARD_UID_PARAMETER@),
    ) {
        (Some(org_id), Some(dashboard_uid)) => match decimal::u64_of(org_id) {
            None => Err(ScopeError::InvalidOrgId),
            Some(org_id) => if org_id == 0 {
                Err(ScopeError::OrgIdNotPositive)
            } else if !is_uid(dashboard_uid) {
                Err(ScopeError::InvalidDashboardUid)
            } else {
                Ok(Some(ScopeView { org_id, dashboard_uid }))
            },
        },
        _ => Ok(None),
    }
}

/// The value of a startup parameter that is there and not empty.
fn find_given<'a>(parameters: &'a Vec<(String, String)>, name: &str) -> (res: Option<&'a String>)
    ensures
        match res {
            Some(value) => given(parameters@, name@) == Some(value@),
            None => given(parameters@, name@) is None,
        },
{
    match lookup::find_named(parameters, name) {
        Some(value) => if value.as_str().is_empty() {
            None
        } else {
            Some(value)
        },
        None => None,
    }
}

/// Whether `s` is made of the characters of dashboard identifiers.
fn check_uid(s: &str) -> (res: bool)
    ensures
        res == is_uid(s@),
{
    let chars = text::chars(s);
    for i in 0..chars.len()
        invariant
            chars@ == s@,
            forall|j: int| 0 <= j < i ==> is_uid_char(#[trigger] s@[j]),
    {
        let c = chars[i];
        if !(('a' <= c && c <= 'z') || ('A' <= c && c <= 'Z') || ('0' <= c && c <= '9') || c == '_'
            || c == '-') {
            assert(!is_uid_char(s@[i as int]));
            return false;
        }
    }
    true
}

impl DashboardScope {
    /// The dashboard that a connection's startup parameters name.
    pub fn from_parameters(parameters: &Vec<(String, String)>) -> (res: Result<
        Option<Self>,
        ScopeError,
    >)
        ensures
            match res {
                Ok(scope) => scope_of(parameters@) == Ok::<Option<ScopeView>, ScopeError>(
                    scope_view(scope),
                ),
                Err(error) => scope_of(parameters@) == Err::<Option<ScopeView>, ScopeError>(error),
            },
    {
        let org_id = match find_given(parameters, GRAFANA_ORG_ID_PARAMETER) {
            Some(org_id) => org_id,
            None => {
                return Ok(None);
            },
        };
        let dashboard_uid = match find_given(parameters, GRAFANA_DASHBOARD_UID_PARAMETER) {
            Some(dashboard_uid) => dashboard_uid,
            None => {
                return Ok(None);
            },
        };
        let org_id = match decimal::parse_u64(org_id.as_str()) {
            Some(org_id) => org_id,
            None => {
                return Err(ScopeError::InvalidOrgId);
            },
        };
        if org_id == 0 {
            return Err(ScopeError::OrgIdNotPositive);
        }
        if !check_uid(dashboard_uid.as_str()) {
            return Err(ScopeError::InvalidDashboardUid);
        }
        Ok(Some(DashboardScope { org_id, dashboard_uid: dashboard_uid.clone() }))
    }
}

/// Whether a dashboard is one that can exist: organisations are numbered from 1, and identifiers
/// are not empty and made of their own characters.
pub open spec fn is_valid(scope: ScopeView) -> bool {
    &&& scope.org_id > 0
    &&& scope.dashboard_uid.len() > 0
    &&& is_uid(scope.dashboard_uid)
}

/// The dashboard that startup parameters name is one that can exist, and they do name it: both
/// its organisation and its identifier.
pub proof fn law_scopes_are_valid(parameters: Seq<(String, String)>)
    ensures
        scope_of(parameters) matches Ok(Some(scope)) ==> {
            &&& is_valid(scope)
            &&& given(parameters, GRAFANA_ORG_ID_PARAMETER@) matches Some(org_id)
                && decimal::u64_of(org_id) == Some(scope.org_id)
            &&& given(parameters, GRAFANA_DASHBOARD_UID_PARAMETER@) == Some(scope.dashboard_uid)
        },
{
}

/// Identifiers are made of the ASCII letters and digits, the underscore and the hyphen.
pub proof fn law_identifier_characters(c: char)
    ensures
        is_uid_char(c) <==> {
            let code = c as u32;
            ||| 0x30 <= code <= 0x39
            ||| 0x41 <= code <= 0x5a
            ||| 0x61 <= code <= 0x7a
            ||| code == 0x5f
            ||| code == 0x2d
        },
{
}

/// What startup parameters say of the dashboard, given which of them are the first ones called
/// `grafana.org_id` and `grafana.dashboard_uid`: without either, or with either empty, they name
/// none; and otherwise they name the one with just that number and identifier, or are wrong in the
/// number, in that it is zero, or in the identifier, in this order.
pub proof fn law_parameters_name_a_dashboard(
    parameters: Seq<(String, String)>,
    i: int,
    j: int,
)
    requires
        lookup::is_first_named(parameters, "grafana.org_id"@, i),
        lookup::is_first_named(parameters, "grafana.dashboard_uid"@, j),
    ensures
        ({
            let named = scope_of(parameters);
            let org_id = parameters[i].1@;
            let uid = parameters[j].1@;
            let both = i < parameters.len() && j < parameters.len() && org_id.len() > 0
                && uid.len() > 0;
            let uid_is_right = forall|n: int|
                0 <= n < uid.len() ==> is_uid_char(#[trigger] uid[n]);
            &&& !both ==> named == Ok::<Option<ScopeView>, ScopeError>(None)
            &&& both ==> match decimal::u64_of(org_id) {
                None => named == Err::<Option<ScopeView>, ScopeError>(ScopeError::InvalidOrgId),
                Some(number) => {
                    &&& number == 0 ==> named == Err::<Option<ScopeView>, ScopeError>(
                        ScopeError::OrgIdNotPositive,
                    )
                    &&& number > 0 && !uid_is_right ==> named == Err::<
                        Option<ScopeView>,
                        ScopeError,
                    >(ScopeError::InvalidDashboardUid)
                    &&& number > 0 && uid_is_right ==> named == Ok::<Option<ScopeView>, ScopeError>(
                        Some(ScopeView { org_id: number, dashboard_uid: uid }),
                    )
                },
            }
        }),
{
    lookup::law_first_entry_of_a_name_is_found(parameters, GRAFANA_ORG_ID_PARAMETER@, i);
    lookup::law_first_entry_of_a_name_is_found(parameters, GRAFANA_DASHBOARD_UID_PARAMETER@, j);
}

/// Connections with different organisations or different dashboards speak for different ones, and
/// with the same for the same.
pub proof fn law_dashboards_are_kept_apart(
    a: Seq<(String, String)>,
    b: Seq<(String, String)>,
)
    requires
        scope_of(a) matches Ok(Some(_)),
        scope_of(b) matches Ok(Some(_)),
    ensures
        scope_of(a) == scope_of(b) <==> given(a, GRAFANA_DASHBOARD_UID_PARAMETER@) == given(
            b,
            GRAFANA_DASHBOARD_UID_PARAMETER@,
        ) && decimal::u64_of(given(a, GRAFANA_ORG_ID_PARAMETER@)->0) == decimal::u64_of(
            given(b, GRAFANA_ORG_ID_PARAMETER@)->0,
        ),
{
}

} // verus!

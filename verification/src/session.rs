//! One connection of a client: what the proxy does with each message.
//!
//! The connection's input and output is done elsewhere. A session is told of each message and
//! answers with what is to be done about it.
use vstd::prelude::*;

use crate::lookup;
use crate::protocol::{
    self, ClientMessage, ProtocolVersion, ServerMessage, TransactionStatus,
};
use crate::scan::{ScanError, ScanResult};
use crate::scope::{self, DashboardScope, ScopeError, ScopeView};
use crate::text;
use crate::whitelist::{self, AccessError, AccessErrorView, QueryWhitelist};

verus! {

/// The startup parameter that holds the user's role in Grafana.
pub const GRAFANA_ROLE_PARAMETER: &'static str = "grafana.role";

/// The role whose queries are not checked.
pub const ADMIN_ROLE: &'static str = "Admin";

/// What is to be done about a message of a client.
#[derive(Clone, Copy, Debug, PartialEq, Eq, Structural)]
pub enum Action {
    /// Answer that SSL is not offered. The message goes no further.
    RefuseSsl,
    /// Answer that GSSAPI encryption is not offered. The message goes no further.
    RefuseGssEncryption,
    /// Wait for the startup message. The message goes no further.
    AwaitStartup,
    /// Speak the given version of the protocol and pass the message on to the server, which will
    /// now authenticate the client.
    AcceptStartup(ProtocolVersion),
    /// Pass the message on to the server.
    Forward,
    /// Pass the message on to the server and end the connection.
    ForwardAndClose,
    /// Do nothing with the message.
    Discard,
    /// Fetch the whitelist of the session's dashboard, and ask again with it.
    LookUpWhitelist,
    /// Answer that access is denied, and that the next query can be sent.
    DenyQuery(TransactionStatus),
    /// Answer that access is denied, and wait for the client to end the exchange.
    DenyParse,
    /// Answer that the next query can be sent: the exchange that was denied is over.
    FinishDenied(TransactionStatus),
}

/// Why a connection cannot go on.
#[derive(Clone, Copy, Debug, PartialEq, Eq, Structural)]
pub enum SessionError {
    /// The client speaks a version of the protocol that is not supported.
    UnsupportedProtocol { major: u16, minor: u16 },
    /// The client names a dashboard that cannot be.
    InvalidScope(ScopeError),
}

/// What is known of a connection.
#[derive(Debug)]
pub struct Session {
    transaction_status: TransactionStatus,
    rejected_extended_query: bool,
    is_admin: bool,
    dashboard_scope: Option<DashboardScope>,
}

/// A session, its strings taken as sequences of characters.
pub struct SessionView {
    /// The transaction status that the server reported last.
    pub status: TransactionStatus,
    /// Whether messages are discarded until the client ends an exchange that was denied.
    pub discarding: bool,
    /// Whether queries are not checked.
    pub admin: bool,
    /// The dashboard for which the connection speaks.
    pub scope: Option<ScopeView>,
}

impl View for Session {
    type V = SessionView;

    closed spec fn view(&self) -> SessionView {
        SessionView {
            status: self.transaction_status,
            discarding: self.rejected_extended_query,
            admin: self.is_admin,
            scope: scope::scope_view(self.dashboard_scope),
        }
    }
}

/// A session before the first message.
pub open spec fn new_session() -> SessionView {
    SessionView { status: TransactionStatus::Idle, discarding: false, admin: false, scope: None }
}

/// Whether startup parameters say that the user is an administrator.
pub open spec fn names_admin(parameters: Seq<(String, String)>) -> bool {
    lookup::first_named(parameters, GRAFANA_ROLE_PARAMETER@) matches Some(role) && role@
        == ADMIN_ROLE@
}

/// What a startup message leads to.
pub open spec fn startup_step(
    session: SessionView,
    major: u16,
    minor: u16,
    parameters: Seq<(String, String)>,
) -> Result<(Action, SessionView), SessionError> {
    match protocol::supported_version(major, minor) {
        None => Err(SessionError::UnsupportedProtocol { major, minor }),
        Some(version) => if names_admin(parameters) {
            Ok(
                (
                    Action::AcceptStartup(version),
                    SessionView { admin: true, scope: None, ..session },
                ),
            )
        } else {
            match scope::scope_of(parameters) {
                Err(error) => Err(SessionError::InvalidScope(error)),
                Ok(scope) => Ok(
                    (
                        Action::AcceptStartup(version),
                        SessionView { admin: false, scope, ..session },
                    ),
                ),
            }
        },
    }
}

/// What the denial of a query leads to.
pub open spec fn denial(session: SessionView, extended: bool) -> (Action, SessionView) {
    if extended {
        (Action::DenyParse, SessionView { discarding: true, ..session })
    } else {
        (Action::DenyQuery(session.status), session)
    }
}

/// What a query leads to, as far as that can be said without the whitelist.
pub open spec fn query_step(session: SessionView, query: Seq<char>, extended: bool) -> (
    Action,
    SessionView,
) {
    if session.admin {
        (Action::Forward, session)
    } else {
        match whitelist::early_decision(session.scope is Some, query) {
            Some(Ok(())) => (Action::Forward, session),
            Some(Err(_)) => denial(session, extended),
            None => (Action::LookUpWhitelist, session),
        }
    }
}

/// What a message of the client leads to: the action, and the session afterwards.
pub open spec fn client_step(session: SessionView, message: ClientMessage) -> Result<
    (Action, SessionView),
    SessionError,
> {
    match message {
        ClientMessage::SslRequest => Ok((Action::RefuseSsl, session)),
        ClientMessage::GssEncryptionRequest => Ok((Action::RefuseGssEncryption, session)),
        ClientMessage::NoEncryption => Ok((Action::AwaitStartup, session)),
        ClientMessage::Startup { major, minor, parameters } => startup_step(
            session,
            major,
            minor,
            parameters@,
        ),
        ClientMessage::Sync => if session.discarding {
            Ok(
                (
                    Action::FinishDenied(session.status),
                    SessionView { discarding: false, ..session },
                ),
            )
        } else {
            Ok((Action::Forward, session))
        },
        ClientMessage::Query { query } => if session.discarding {
            Ok((Action::Discard, session))
        } else {
            Ok(query_step(session, query@, false))
        },
        ClientMessage::Parse { query } => if session.discarding {
            Ok((Action::Discard, session))
        } else {
            Ok(query_step(session, query@, true))
        },
        ClientMessage::Terminate => if session.discarding {
            Ok((Action::Discard, session))
        } else {
            Ok((Action::ForwardAndClose, session))
        },
        ClientMessage::Other => if session.discarding {
            Ok((Action::Discard, session))
        } else {
            Ok((Action::Forward, session))
        },
    }
}

/// What a query leads to once the whitelist has been looked up.
pub open spec fn whitelist_step(
    session: SessionView,
    query: Seq<char>,
    extended: bool,
    lookup: Result<QueryWhitelist, String>,
    scan: Result<ScanResult, ScanError>,
) -> (Action, SessionView) {
    if whitelist::lookup_decision(lookup, query, scan) is Ok {
        (Action::Forward, session)
    } else {
        denial(session, extended)
    }
}

/// What a message of the server, which always goes on to the client, tells of the session.
pub open spec fn server_step(session: SessionView, message: ServerMessage) -> SessionView {
    match message {
        ServerMessage::ReadyForQuery(status) => SessionView { status, ..session },
        ServerMessage::Other => session,
    }
}

impl Session {
    /// A session before the first message.
    pub fn new() -> (res: Self)
        ensures
            res@ == new_session(),
    {
        Session {
            transaction_status: TransactionStatus::Idle,
            rejected_extended_query: false,
            is_admin: false,
            dashboard_scope: None,
        }
    }

    /// The dashboard for which the connection speaks.
    pub fn scope(&self) -> (res: Option<&DashboardScope>)
        ensures
            match res {
                Some(scope) => self@.scope == Some(scope@),
                None => self@.scope is None,
            },
    {
        self.dashboard_scope.as_ref()
    }

    /// Denies a query.
    fn deny(&mut self, extended: bool) -> (action: Action)
        ensures
            (action, final(self)@) == denial(old(self)@, extended),
    {
        if extended {
            self.rejected_extended_query = true;
            Action::DenyParse
        } else {
            Action::DenyQuery(self.transaction_status)
        }
    }

    /// Begins the session with the parameters of the startup message.
    fn start(&mut self, major: u16, minor: u16, parameters: &Vec<(String, String)>) -> (res: Result<
        Action,
        SessionError,
    >)
        ensures
            match res {
                Ok(action) => startup_step(old(self)@, major, minor, parameters@) == Ok::<
                    (Action, SessionView),
                    SessionError,
                >((action, final(self)@)),
                Err(error) => startup_step(old(self)@, major, minor, parameters@) == Err::<
                    (Action, SessionView),
                    SessionError,
                >(error) && final(self)@ == old(self)@,
            },
    {
        let version = match protocol::version_from_number(major, minor) {
            Some(version) => version,
            None => {
                return Err(SessionError::UnsupportedProtocol { major, minor });
            },
        };
        let is_admin = match lookup::find_named(parameters, GRAFANA_ROLE_PARAMETER) {
            Some(role) => text::same(role.as_str(), ADMIN_ROLE),
            None => false,
        };
        let dashboard_scope = if is_admin {
            None
        } else {
            match DashboardScope::from_parameters(parameters) {
                Ok(scope) => scope,
                Err(error) => {
                    return Err(SessionError::InvalidScope(error));
                },
            }
        };
        self.is_admin = is_admin;
        self.dashboard_scope = dashboard_scope;
        Ok(Action::AcceptStartup(version))
    }

    /// Decides about a query as far as that can be done without the whitelist.
    fn check_query(&mut self, query: &str, extended: bool) -> (action: Action)
        ensures
            (action, final(self)@) == query_step(old(self)@, query@, extended),
    {
        if self.is_admin {
            return Action::Forward;
        }
        match whitelist::decide_early(&self.dashboard_scope, query) {
            Some(Ok(())) => Action::Forward,
            Some(Err(_)) => self.deny(extended),
            None => Action::LookUpWhitelist,
        }
    }

    /// What is to be done about a message of the client. After an error the connection cannot go
    /// on.
    pub fn on_client_message(&mut self, message: &ClientMessage) -> (res: Result<
        Action,
        SessionError,
    >)
        ensures
            match res {
                Ok(action) => client_step(old(self)@, *message) == Ok::<
                    (Action, SessionView),
                    SessionError,
                >((action, final(self)@)),
                Err(error) => client_step(old(self)@, *message) == Err::<
                    (Action, SessionView),
                    SessionError,
                >(error) && final(self)@ == old(self)@,
            },
    {
        match message {
            ClientMessage::SslRequest => {
                return Ok(Action::RefuseSsl);
            },
            ClientMessage::GssEncryptionRequest => {
                return Ok(Action::RefuseGssEncryption);
            },
            ClientMessage::NoEncryption => {
                return Ok(Action::AwaitStartup);
            },
            ClientMessage::Startup { major, minor, parameters } => {
                return self.start(*major, *minor, parameters);
            },
            _ => {},
        }
        if self.rejected_extended_query {
            return match message {
                ClientMessage::Sync => {
                    self.rejected_extended_query = false;
                    Ok(Action::FinishDenied(self.transaction_status))
                },
                _ => Ok(Action::Discard),
            };
        }
        match message {
            ClientMessage::Query { query } => Ok(self.check_query(query.as_str(), false)),
            ClientMessage::Parse { query } => Ok(self.check_query(query.as_str(), true)),
            ClientMessage::Terminate => Ok(Action::ForwardAndClose),
            _ => Ok(Action::Forward),
        }
    }

    /// What is to be done about a query for which the whitelist had to be looked up, and why it is
    /// denied where it is. `extended` says whether it came in the extended protocol, `lookup` is
    /// what became of fetching the whitelist, and `scan` is what the scanner says of the query
    /// without the white space around it.
    pub fn on_whitelist(
        &mut self,
        query: &str,
        extended: bool,
        lookup: &Result<QueryWhitelist, String>,
        scan: &Result<ScanResult, ScanError>,
    ) -> (res: (Action, Result<(), AccessError>))
        ensures
            (res.0, final(self)@) == whitelist_step(old(self)@, query@, extended, *lookup, *scan),
            match res.1 {
                Ok(()) => whitelist::lookup_decision(*lookup, query@, *scan) is Ok,
                Err(error) => whitelist::lookup_decision(*lookup, query@, *scan) == Err::<
                    (),
                    AccessErrorView,
                >(error@),
            },
    {
        let verdict = whitelist::decide(lookup, query, scan);
        let action = match verdict {
            Ok(()) => Action::Forward,
            Err(_) => self.deny(extended),
        };
        (action, verdict)
    }

    /// Takes note of a message of the server, which always goes on to the client.
    pub fn on_server_message(&mut self, message: &ServerMessage)
        ensures
            final(self)@ == server_step(old(self)@, *message),
    {
        match message {
            ServerMessage::ReadyForQuery(status) => {
                self.transaction_status = *status;
            },
            ServerMessage::Other => {},
        }
    }
}

/// Whether a session is one that can come about: what an administrator asks is not tied to a
/// dashboard, and a dashboard is a valid one.
pub open spec fn is_valid(session: SessionView) -> bool {
    &&& session.admin ==> session.scope is None
    &&& session.scope matches Some(scope) ==> scope::is_valid(scope)
}

/// What a message of the client leads to in the end: where it takes the whitelist, `lookup` is
/// what became of fetching that, and `scan` what the scanner says of the query.
pub open spec fn client_outcome(
    session: SessionView,
    message: ClientMessage,
    lookup: Result<QueryWhitelist, String>,
    scan: Result<ScanResult, ScanError>,
) -> Result<(Action, SessionView), SessionError> {
    match client_step(session, message) {
        Ok((Action::LookUpWhitelist, next)) => match message {
            ClientMessage::Query { query } => Ok(
                whitelist_step(next, query@, false, lookup, scan),
            ),
            ClientMessage::Parse { query } => Ok(whitelist_step(next, query@, true, lookup, scan)),
            _ => Ok((Action::LookUpWhitelist, next)),
        },
        outcome => outcome,
    }
}

/// Something that happens on a connection.
pub enum Event {
    /// The client sends a message; the rest says what the whitelist and the scanner say of it,
    /// where they are asked.
    Client(ClientMessage, Result<QueryWhitelist, String>, Result<ScanResult, ScanError>),
    /// The server sends a message.
    Server(ServerMessage),
}

/// A session after an event. A connection that cannot go on stays as it is.
pub open spec fn after_event(session: SessionView, event: Event) -> SessionView {
    match event {
        Event::Client(message, lookup, scan) => match client_outcome(
            session,
            message,
            lookup,
            scan,
        ) {
            Ok((_, next)) => next,
            Err(_) => session,
        },
        Event::Server(message) => server_step(session, message),
    }
}

/// A session after several events, one after the other.
pub open spec fn after_events(session: SessionView, events: Seq<Event>) -> SessionView
    decreases events.len(),
{
    if events.len() == 0 {
        session
    } else {
        after_event(after_events(session, events.drop_last()), events.last())
    }
}

/// The transaction status that the server reports last among `events`; `before` if it reports
/// none.
pub open spec fn last_status(before: TransactionStatus, events: Seq<Event>) -> TransactionStatus
    decreases events.len(),
{
    if events.len() == 0 {
        before
    } else {
        match events.last() {
            Event::Server(ServerMessage::ReadyForQuery(status)) => status,
            _ => last_status(before, events.drop_last()),
        }
    }
}

/// The query in a message, if there is one.
pub open spec fn query_of(message: ClientMessage) -> Option<Seq<char>> {
    match message {
        ClientMessage::Query { query } => Some(query@),
        ClientMessage::Parse { query } => Some(query@),
        _ => None,
    }
}

/// Whether a session may send a query: an administrator any, everybody a ping, and otherwise a
/// connection that speaks for a dashboard what that dashboard's whitelist lets pass.
pub open spec fn may_send(
    session: SessionView,
    query: Seq<char>,
    lookup: Result<QueryWhitelist, String>,
    scan: Result<ScanResult, ScanError>,
) -> bool {
    ||| session.admin
    ||| whitelist::is_ping_query(query)
    ||| session.scope is Some && whitelist::lookup_decision(lookup, query, scan) is Ok
}

/// Whether a message ends an exchange that was denied, or comes before the session proper.
pub open spec fn ends_discarding(message: ClientMessage) -> bool {
    match message {
        ClientMessage::Sync => true,
        ClientMessage::SslRequest => true,
        ClientMessage::GssEncryptionRequest => true,
        ClientMessage::NoEncryption => true,
        ClientMessage::Startup { .. } => true,
        _ => false,
    }
}

/// Whatever happens on a connection, its session stays a valid one.
pub proof fn law_sessions_stay_valid(events: Seq<Event>)
    ensures
        is_valid(after_events(new_session(), events)),
    decreases events.len(),
{
    if events.len() > 0 {
        law_sessions_stay_valid(events.drop_last());
        if let Event::Client(ClientMessage::Startup { parameters, .. }, _, _) = events.last() {
            scope::law_scopes_are_valid(parameters@);
        }
    }
}

/// A query reaches the server just where the session may send it and no denied exchange is under
/// way.
pub proof fn law_only_permitted_queries_are_forwarded(
    session: SessionView,
    message: ClientMessage,
    lookup: Result<QueryWhitelist, String>,
    scan: Result<ScanResult, ScanError>,
)
    requires
        query_of(message) is Some,
    ensures
        client_outcome(session, message, lookup, scan) matches Ok((action, _)) && (action
            == Action::Forward <==> !session.discarding && may_send(
            session,
            query_of(message)->0,
            lookup,
            scan,
        )),
{
}

/// A query of the simple protocol that may not be sent is answered with the transaction status
/// that the server reported last, and leaves no trace in the session.
pub proof fn law_denied_queries_are_answered(
    session: SessionView,
    query: String,
    lookup: Result<QueryWhitelist, String>,
    scan: Result<ScanResult, ScanError>,
)
    requires
        !session.discarding,
        !may_send(session, query@, lookup, scan),
    ensures
        client_outcome(session, ClientMessage::Query { query }, lookup, scan) == Ok::<
            (Action, SessionView),
            SessionError,
        >((Action::DenyQuery(session.status), session)),
{
}

/// After a query of the extended protocol that may not be sent, whatever the client sends is
/// discarded until it ends the exchange. It is then told the transaction status that the server
/// reported last, and the session is where it was before the query, but for that status.
pub proof fn law_denied_exchanges_are_discarded(
    session: SessionView,
    query: String,
    lookup: Result<QueryWhitelist, String>,
    scan: Result<ScanResult, ScanError>,
    events: Seq<Event>,
)
    requires
        !session.discarding,
        !may_send(session, query@, lookup, scan),
        forall|i: int|
            0 <= i < events.len() ==> (#[trigger] events[i] matches Event::Client(message, _, _)
                ==> !ends_discarding(message)),
    ensures
        client_outcome(session, ClientMessage::Parse { query }, lookup, scan) matches Ok(
            (action, denied),
        ) && action == Action::DenyParse && {
            &&& forall|i: int|
                0 <= i < events.len() ==> (#[trigger] events[i] matches Event::Client(message, l, s)
                    ==> client_outcome(after_events(denied, events.take(i)), message, l, s) == Ok::<
                    (Action, SessionView),
                    SessionError,
                >((Action::Discard, after_events(denied, events.take(i)))))
            &&& client_step(after_events(denied, events), ClientMessage::Sync) == Ok::<
                (Action, SessionView),
                SessionError,
            >(
                (
                    Action::FinishDenied(last_status(session.status, events)),
                    SessionView { status: last_status(session.status, events), ..session },
                ),
            )
        },
{
    let denied = SessionView { discarding: true, ..session };
    lemma_discarding(denied, events);
    assert forall|i: int| 0 <= i < events.len() implies (#[trigger] events[i] matches Event::Client(
        message,
        l,
        s,
    ) ==> client_outcome(after_events(denied, events.take(i)), message, l, s) == Ok::<
        (Action, SessionView),
        SessionError,
    >((Action::Discard, after_events(denied, events.take(i))))) by {
        assert forall|j: int| 0 <= j < events.take(i).len() implies (
        #[trigger] events.take(i)[j] matches Event::Client(message, _, _) ==> !ends_discarding(
            message,
        )) by {
            assert(events.take(i)[j] == events[j]);
        }
        lemma_discarding(denied, events.take(i));
    }
}

proof fn lemma_discarding(session: SessionView, events: Seq<Event>)
    requires
        session.discarding,
        forall|i: int|
            0 <= i < events.len() ==> (#[trigger] events[i] matches Event::Client(message, _, _)
                ==> !ends_discarding(message)),
    ensures
        after_events(session, events) == (SessionView {
            status: last_status(session.status, events),
            ..session
        }),
    decreases events.len(),
{
    if events.len() > 0 {
        let before = events.drop_last();
        assert forall|i: int| 0 <= i < before.len() implies (
        #[trigger] before[i] matches Event::Client(message, _, _) ==> !ends_discarding(message)) by {
            assert(before[i] == events[i]);
        }
        lemma_discarding(session, before);
        assert(events.last() == events[events.len() - 1]);
    }
}

/// A session knows the transaction status that the server reported last.
pub proof fn law_status_is_the_last_reported(events: Seq<Event>)
    ensures
        after_events(new_session(), events).status == last_status(TransactionStatus::Idle, events),
    decreases events.len(),
{
    if events.len() > 0 {
        law_status_is_the_last_reported(events.drop_last());
    }
}

/// The whitelist is asked only for a query other than the ping, of a connection that speaks for a
/// dashboard and not for an administrator.
pub proof fn law_whitelist_is_asked_only_where_it_decides(
    session: SessionView,
    message: ClientMessage,
)
    ensures
        client_step(session, message) matches Ok((action, next)) ==> (action
            == Action::LookUpWhitelist ==> {
            &&& next == session
            &&& session.scope is Some && !session.admin
            &&& query_of(message) matches Some(query) && !whitelist::is_ping_query(query)
        }),
{
}

/// The fields of the answer that a denied query gets, each with its type.
pub fn access_denied_fields() -> (fields: Vec<(u8, String)>)
    ensures
        fields@.len() == 3,
        fields@[0].0 == 'S' as u8 && fields@[0].1@ == "ERROR"@,
        fields@[1].0 == 'C' as u8 && fields@[1].1@ == "42501"@,
        fields@[2].0 == 'M' as u8 && fields@[2].1@ == "query is not permitted by the whitelist"@,
{
    let mut fields: Vec<(u8, String)> = Vec::new();
    fields.push(('S' as u8, "ERROR".to_owned()));
    fields.push(('C' as u8, "42501".to_owned()));
    fields.push(('M' as u8, "query is not permitted by the whitelist".to_owned()));
    fields
}

/// While no denied exchange is under way, every message that is neither a query nor belongs to the
/// startup goes on to the server, the client's leave being the last; the session stays as it is.
pub proof fn law_other_messages_are_forwarded(session: SessionView)
    requires
        !session.discarding,
    ensures
        client_step(session, ClientMessage::Other) == Ok::<(Action, SessionView), SessionError>(
            (Action::Forward, session),
        ),
        client_step(session, ClientMessage::Sync) == Ok::<(Action, SessionView), SessionError>(
            (Action::Forward, session),
        ),
        client_step(session, ClientMessage::Terminate) == Ok::<(Action, SessionView), SessionError>(
            (Action::ForwardAndClose, session),
        ),
{
}

/// Just the messages of a denied exchange are discarded: those that come while one is under way and
/// do not end it.
pub proof fn law_only_denied_exchanges_are_discarded(
    session: SessionView,
    message: ClientMessage,
    lookup: Result<QueryWhitelist, String>,
    scan: Result<ScanResult, ScanError>,
)
    ensures
        (client_outcome(session, message, lookup, scan) matches Ok((action, _)) && action
            == Action::Discard) <==> session.discarding && !ends_discarding(message),
        session.discarding && !ends_discarding(message) ==> client_outcome(
            session,
            message,
            lookup,
            scan,
        ) == Ok::<(Action, SessionView), SessionError>((Action::Discard, session)),
{
}

/// Encryption is refused at any time, and a client that asks for none is waited for; neither
/// changes the session.
pub proof fn law_encryption_is_refused(session: SessionView)
    ensures
        client_step(session, ClientMessage::SslRequest) == Ok::<
            (Action, SessionView),
            SessionError,
        >((Action::RefuseSsl, session)),
        client_step(session, ClientMessage::GssEncryptionRequest) == Ok::<
            (Action, SessionView),
            SessionError,
        >((Action::RefuseGssEncryption, session)),
        client_step(session, ClientMessage::NoEncryption) == Ok::<
            (Action, SessionView),
            SessionError,
        >((Action::AwaitStartup, session)),
{
}

/// What a startup message leads to, given which of its parameters is the first one called
/// `grafana.role`: versions other than 3.0 and 3.2 are refused by their numbers; where the role is
/// `Admin` the session is an administrator's, whatever else the parameters say; and otherwise it
/// speaks for the dashboard that they name, or is refused for naming a wrong one. The rest of the
/// session stays as it is.
pub proof fn law_startup_says_who_speaks(
    session: SessionView,
    major: u16,
    minor: u16,
    parameters: Vec<(String, String)>,
    i: int,
)
    requires
        lookup::is_first_named(parameters@, "grafana.role"@, i),
    ensures
        ({
            let outcome = client_step(
                session,
                ClientMessage::Startup { major, minor, parameters },
            );
            let known = major == 3 && (minor == 0 || minor == 2);
            let version = if minor == 0 {
                ProtocolVersion::V3_0
            } else {
                ProtocolVersion::V3_2
            };
            let admin = i < parameters@.len() && parameters@[i].1@ == "Admin"@;
            &&& !known ==> outcome == Err::<(Action, SessionView), SessionError>(
                SessionError::UnsupportedProtocol { major, minor },
            )
            &&& known && admin ==> outcome == Ok::<(Action, SessionView), SessionError>(
                (
                    Action::AcceptStartup(version),
                    SessionView {
                        status: session.status,
                        discarding: session.discarding,
                        admin: true,
                        scope: None,
                    },
                ),
            )
            &&& known && !admin ==> match scope::scope_of(parameters@) {
                Ok(scope) => outcome == Ok::<(Action, SessionView), SessionError>(
                    (
                        Action::AcceptStartup(version),
                        SessionView {
                            status: session.status,
                            discarding: session.discarding,
                            admin: false,
                            scope,
                        },
                    ),
                ),
                Err(error) => outcome == Err::<(Action, SessionView), SessionError>(
                    SessionError::InvalidScope(error),
                ),
            }
        }),
{
    lookup::law_first_entry_of_a_name_is_found(parameters@, GRAFANA_ROLE_PARAMETER@, i);
}

/// Of a query only its text, the session's rights and what the whitelist says of it decide whether
/// it is forwarded: the same for both protocols.
pub proof fn law_both_protocols_are_checked_alike(
    session: SessionView,
    query: String,
    lookup: Result<QueryWhitelist, String>,
    scan: Result<ScanResult, ScanError>,
)
    ensures
        (client_outcome(session, ClientMessage::Query { query }, lookup, scan) matches Ok((action, _))
            && action == Action::Forward) <==> (client_outcome(
            session,
            ClientMessage::Parse { query },
            lookup,
            scan,
        ) matches Ok((action, _)) && action == Action::Forward),
        client_outcome(session, ClientMessage::Query { query }, lookup, scan) matches Ok((action, next))
            && (action == Action::Forward ==> next == session),
{
}

/// A message of the server changes nothing of a session but the transaction status, and that only
/// where it reports one.
pub proof fn law_server_messages_report_the_status(
    session: SessionView,
    status: TransactionStatus,
)
    ensures
        server_step(session, ServerMessage::ReadyForQuery(status)) == (SessionView {
            status,
            discarding: session.discarding,
            admin: session.admin,
            scope: session.scope,
        }),
        server_step(session, ServerMessage::Other) == session,
{
}

} // verus!

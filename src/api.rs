//! Connection phases, the per-connection client record, and the factory
//! that hands each new connection its handler.
use std::sync::Arc;

use vstd::prelude::*;

use crate::startup::{param_lookup, Startup};
use crate::store::MemSessionStore;

pub use postgres_types::Type;

verus! {

#[verifier::external_type_specification]
#[verifier::external_body]
pub struct ExType(postgres_types::Type);

/// Name under which the engine stores its default entries.
pub const DEFAULT_NAME: &'static str = "POSTGRESQL_DEFAULT_NAME";

/// Metadata key of the user name taken from the startup parameters.
pub const METADATA_USER: &'static str = "user";

/// Metadata key of the database name taken from the startup parameters.
pub const METADATA_DATABASE: &'static str = "database";

/// The phase of one connection.
#[derive(PartialEq, Eq, Structural, Debug, Clone, Copy)]
pub enum PgWireConnectionState {
    AwaitingStartup,
    AuthenticationInProgress,
    ReadyForQuery,
    QueryInProgress,
}

impl Default for PgWireConnectionState {
    /// A connection starts by awaiting its startup message.
    fn default() -> (r: PgWireConnectionState)
        ensures
            r == PgWireConnectionState::AwaitingStartup,
    {
        PgWireConnectionState::AwaitingStartup
    }
}

/// What happened on a connection, as far as its phase is concerned.
#[derive(PartialEq, Eq, Structural, Debug, Clone, Copy)]
pub enum ConnectionEvent {
    /// A startup message arrived.
    Startup,
    /// The credential verifier accepted the password.
    CredentialsAccepted,
    /// The credential verifier rejected the password.
    CredentialsRejected,
    /// A query-initiating message arrived.
    QueryStarted,
    /// The unit of work of the current query finished.
    QueryCompleted,
    /// The current query was cancelled from another connection.
    QueryCancelled,
}

/// A message that the current phase does not allow, or a failed login.
#[derive(PartialEq, Eq, Structural, Debug, Clone, Copy)]
pub enum ProtocolError {
    /// The event is not legal in the current phase.
    OutOfSequence,
    /// The credentials were rejected.
    AuthenticationFailed,
}

/// The phase after `e` in phase `s`, or why `e` is refused there.
pub open spec fn next_state(s: PgWireConnectionState, e: ConnectionEvent) -> Result<
    PgWireConnectionState,
    ProtocolError,
> {
    match (s, e) {
        (PgWireConnectionState::AwaitingStartup, ConnectionEvent::Startup) => Ok(
            PgWireConnectionState::AuthenticationInProgress,
        ),
        (
            PgWireConnectionState::AuthenticationInProgress,
            ConnectionEvent::CredentialsAccepted,
        ) => Ok(PgWireConnectionState::ReadyForQuery),
        (
            PgWireConnectionState::AuthenticationInProgress,
            ConnectionEvent::CredentialsRejected,
        ) => Err(ProtocolError::AuthenticationFailed),
        (PgWireConnectionState::ReadyForQuery, ConnectionEvent::QueryStarted) => Ok(
            PgWireConnectionState::QueryInProgress,
        ),
        (PgWireConnectionState::QueryInProgress, ConnectionEvent::QueryCompleted) => Ok(
            PgWireConnectionState::ReadyForQuery,
        ),
        (PgWireConnectionState::QueryInProgress, ConnectionEvent::QueryCancelled) => Ok(
            PgWireConnectionState::ReadyForQuery,
        ),
        _ => Err(ProtocolError::OutOfSequence),
    }
}

impl PgWireConnectionState {
    /// The phase after `e`, or why `e` is refused in this phase.
    pub fn transition(&self, e: ConnectionEvent) -> (r: Result<PgWireConnectionState, ProtocolError>)
        ensures
            r == next_state(*self, e),
    {
        match (self, e) {
            (PgWireConnectionState::AwaitingStartup, ConnectionEvent::Startup) => Ok(
                PgWireConnectionState::AuthenticationInProgress,
            ),
            (
                PgWireConnectionState::AuthenticationInProgress,
                ConnectionEvent::CredentialsAccepted,
            ) => Ok(PgWireConnectionState::ReadyForQuery),
            (
                PgWireConnectionState::AuthenticationInProgress,
                ConnectionEvent::CredentialsRejected,
            ) => Err(ProtocolError::AuthenticationFailed),
            (PgWireConnectionState::ReadyForQuery, ConnectionEvent::QueryStarted) => Ok(
                PgWireConnectionState::QueryInProgress,
            ),
            (PgWireConnectionState::QueryInProgress, ConnectionEvent::QueryCompleted) => Ok(
                PgWireConnectionState::ReadyForQuery,
            ),
            (PgWireConnectionState::QueryInProgress, ConnectionEvent::QueryCancelled) => Ok(
                PgWireConnectionState::ReadyForQuery,
            ),
            _ => Err(ProtocolError::OutOfSequence),
        }
    }
}

/// A query may start only when the connection is ready for one: in every
/// other phase it is refused as out of sequence, and the phase stays.
pub proof fn lemma_query_needs_ready(s: PgWireConnectionState)
    requires
        s != PgWireConnectionState::ReadyForQuery,
    ensures
        next_state(s, ConnectionEvent::QueryStarted) == Err::<PgWireConnectionState, ProtocolError>(
            ProtocolError::OutOfSequence,
        ),
{
}

/// A parsed statement, not yet bound.
pub struct Statement {
    pub query: String,
    pub parameter_types: Vec<Type>,
}

impl Statement {
    pub fn new(query: String, parameter_types: Vec<Type>) -> (r: Statement)
        ensures
            r.query@ == query@,
            r.parameter_types@ == parameter_types@,
    {
        Statement { query, parameter_types }
    }
}

/// A statement bound to parameter values, ready to run.
pub struct Portal {
    pub statement: Arc<Statement>,
    pub parameters: Vec<Option<Vec<u8>>>,
}

impl Portal {
    pub fn new(statement: Arc<Statement>, parameters: Vec<Option<Vec<u8>>>) -> (r: Portal)
        ensures
            r.statement == statement,
            r.parameters@ == parameters@,
    {
        Portal { statement, parameters }
    }
}

/// The peer of a connection: its IP address octets (4 or 16 of them) and port.
#[derive(PartialEq, Eq, Debug, Clone)]
pub struct PeerAddr {
    pub ip: Vec<u8>,
    pub port: u16,
}

/// The metadata after a startup message with parameters `ps`: the user and
/// database parameters, where present, are copied in.
pub open spec fn promoted(
    meta: Map<Seq<char>, String>,
    ps: Seq<(Seq<char>, Seq<char>)>,
) -> Map<Seq<char>, Seq<char>> {
    let m1 = match param_lookup(ps, METADATA_USER@) {
        Some(v) => meta.map_values(|s: String| s@).insert(METADATA_USER@, v),
        None => meta.map_values(|s: String| s@),
    };
    match param_lookup(ps, METADATA_DATABASE@) {
        Some(v) => m1.insert(METADATA_DATABASE@, v),
        None => m1,
    }
}

/// Everything the engine keeps about one connection.
pub struct ClientInfoHolder {
    socket_addr: PeerAddr,
    is_secure: bool,
    state: PgWireConnectionState,
    metadata: MemSessionStore<String>,
    portal_store: MemSessionStore<Arc<Portal>>,
    stmt_store: MemSessionStore<Arc<Statement>>,
}

impl ClientInfoHolder {
    pub closed spec fn spec_socket_addr(&self) -> PeerAddr {
        self.socket_addr
    }

    pub closed spec fn spec_is_secure(&self) -> bool {
        self.is_secure
    }

    pub closed spec fn spec_state(&self) -> PgWireConnectionState {
        self.state
    }

    pub closed spec fn spec_metadata(&self) -> MemSessionStore<String> {
        self.metadata
    }

    pub closed spec fn spec_portals(&self) -> MemSessionStore<Arc<Portal>> {
        self.portal_store
    }

    pub closed spec fn spec_statements(&self) -> MemSessionStore<Arc<Statement>> {
        self.stmt_store
    }

    /// The three stores are well formed.
    pub open spec fn wf(&self) -> bool {
        self.spec_metadata().wf() && self.spec_portals().wf() && self.spec_statements().wf()
    }

    /// A record for a newly accepted connection: awaiting startup, with no
    /// metadata, statements or portals.
    pub fn new(socket_addr: PeerAddr, is_secure: bool) -> (r: ClientInfoHolder)
        ensures
            r.wf(),
            r.spec_socket_addr() == socket_addr,
            r.spec_is_secure() == is_secure,
            r.spec_state() == PgWireConnectionState::AwaitingStartup,
            r.spec_metadata()@ == Map::<Seq<char>, String>::empty(),
            r.spec_portals()@ == Map::<Seq<char>, Arc<Portal>>::empty(),
            r.spec_statements()@ == Map::<Seq<char>, Arc<Statement>>::empty(),
    {
        ClientInfoHolder {
            socket_addr,
            is_secure,
            state: PgWireConnectionState::AwaitingStartup,
            metadata: MemSessionStore::new(),
            portal_store: MemSessionStore::new(),
            stmt_store: MemSessionStore::new(),
        }
    }

    pub fn socket_addr(&self) -> (r: &PeerAddr)
        ensures
            *r == self.spec_socket_addr(),
    {
        &self.socket_addr
    }

    pub fn is_secure(&self) -> (r: bool)
        ensures
            r == self.spec_is_secure(),
    {
        self.is_secure
    }

    pub fn state(&self) -> (r: PgWireConnectionState)
        ensures
            r == self.spec_state(),
    {
        self.state
    }

    pub fn set_state(&mut self, new_state: PgWireConnectionState)
        ensures
            final(self).spec_state() == new_state,
            final(self).spec_socket_addr() == old(self).spec_socket_addr(),
            final(self).spec_is_secure() == old(self).spec_is_secure(),
            final(self).spec_metadata() == old(self).spec_metadata(),
            final(self).spec_portals() == old(self).spec_portals(),
            final(self).spec_statements() == old(self).spec_statements(),
    {
        self.state = new_state;
    }

    pub fn metadata(&self) -> (r: &MemSessionStore<String>)
        ensures
            *r == self.spec_metadata(),
    {
        &self.metadata
    }

    pub fn metadata_mut(&mut self) -> (r: &mut MemSessionStore<String>)
        ensures
            *r == old(self).spec_metadata(),
            final(self).spec_metadata() == *final(r),
            final(self).spec_state() == old(self).spec_state(),
            final(self).spec_socket_addr() == old(self).spec_socket_addr(),
            final(self).spec_is_secure() == old(self).spec_is_secure(),
            final(self).spec_portals() == old(self).spec_portals(),
            final(self).spec_statements() == old(self).spec_statements(),
    {
        &mut self.metadata
    }

    pub fn portal_store(&self) -> (r: &MemSessionStore<Arc<Portal>>)
        ensures
            *r == self.spec_portals(),
    {
        &self.portal_store
    }

    pub fn portal_store_mut(&mut self) -> (r: &mut MemSessionStore<Arc<Portal>>)
        ensures
            *r == old(self).spec_portals(),
            final(self).spec_portals() == *final(r),
            final(self).spec_state() == old(self).spec_state(),
            final(self).spec_socket_addr() == old(self).spec_socket_addr(),
            final(self).spec_is_secure() == old(self).spec_is_secure(),
            final(self).spec_metadata() == old(self).spec_metadata(),
            final(self).spec_statements() == old(self).spec_statements(),
    {
        &mut self.portal_store
    }

    pub fn stmt_store(&self) -> (r: &MemSessionStore<Arc<Statement>>)
        ensures
            *r == self.spec_statements(),
    {
        &self.stmt_store
    }

    pub fn stmt_store_mut(&mut self) -> (r: &mut MemSessionStore<Arc<Statement>>)
        ensures
            *r == old(self).spec_statements(),
            final(self).spec_statements() == *final(r),
            final(self).spec_state() == old(self).spec_state(),
            final(self).spec_socket_addr() == old(self).spec_socket_addr(),
            final(self).spec_is_secure() == old(self).spec_is_secure(),
            final(self).spec_metadata() == old(self).spec_metadata(),
            final(self).spec_portals() == old(self).spec_portals(),
    {
        &mut self.stmt_store
    }

    /// Applies `e` to the phase: on success the phase moves on; on refusal
    /// nothing changes.
    pub fn handle_event(&mut self, e: ConnectionEvent) -> (r: Result<(), ProtocolError>)
        ensures
            match next_state(old(self).spec_state(), e) {
                Ok(s) => r is Ok && final(self).spec_state() == s,
                Err(err) => r == Err::<(), ProtocolError>(err) && final(self).spec_state()
                    == old(self).spec_state(),
            },
            final(self).spec_socket_addr() == old(self).spec_socket_addr(),
            final(self).spec_is_secure() == old(self).spec_is_secure(),
            final(self).spec_metadata() == old(self).spec_metadata(),
            final(self).spec_portals() == old(self).spec_portals(),
            final(self).spec_statements() == old(self).spec_statements(),
    {
        match self.state.transition(e) {
            Ok(s) => {
                self.state = s;
                Ok(())
            },
            Err(err) => Err(err),
        }
    }

    /// Takes a startup message: legal only while awaiting one. The phase
    /// moves to authentication, and the user and database parameters are
    /// copied into the metadata.
    pub fn on_startup(&mut self, startup: &Startup) -> (r: Result<(), ProtocolError>)
        requires
            old(self).wf(),
        ensures
            final(self).wf(),
            old(self).spec_state() == PgWireConnectionState::AwaitingStartup ==> r is Ok
                && final(self).spec_state() == PgWireConnectionState::AuthenticationInProgress
                && final(self).spec_metadata()@.map_values(|s: String| s@) == promoted(
                old(self).spec_metadata()@,
                startup@.2,
            ),
            old(self).spec_state() != PgWireConnectionState::AwaitingStartup ==> r
                == Err::<(), ProtocolError>(ProtocolError::OutOfSequence) && *final(self)
                == *old(self),
            final(self).spec_socket_addr() == old(self).spec_socket_addr(),
            final(self).spec_is_secure() == old(self).spec_is_secure(),
            final(self).spec_portals() == old(self).spec_portals(),
            final(self).spec_statements() == old(self).spec_statements(),
    {
        match self.state.transition(ConnectionEvent::Startup) {
            Ok(s) => {
                let ghost m0 = self.metadata@;
                let user_key = METADATA_USER.to_owned();
                match startup.parameter(&user_key) {
                    Some(v) => self.metadata.put(METADATA_USER, v.clone()),
                    None => {},
                }
                let ghost m1 = self.metadata@;
                let db_key = METADATA_DATABASE.to_owned();
                match startup.parameter(&db_key) {
                    Some(v) => self.metadata.put(METADATA_DATABASE, v.clone()),
                    None => {},
                }
                self.state = s;
                proof {
                    let f = |s: String| s@;
                    match param_lookup(startup@.2, METADATA_USER@) {
                        Some(v) => {
                            assert(m1.map_values(f) =~= m0.map_values(f).insert(METADATA_USER@, v));
                        },
                        None => {
                            assert(m1.map_values(f) =~= m0.map_values(f));
                        },
                    }
                    match param_lookup(startup@.2, METADATA_DATABASE@) {
                        Some(v) => {
                            assert(self.metadata@.map_values(f) =~= m1.map_values(f).insert(
                                METADATA_DATABASE@,
                                v,
                            ));
                        },
                        None => {
                            assert(self.metadata@.map_values(f) =~= m1.map_values(f));
                        },
                    }
                }
                Ok(())
            },
            Err(err) => Err(err),
        }
    }
}

/// Makes the handler for each newly accepted connection.
pub trait MakeHandler {
    type Handler;

    /// `h` is a handler this factory may hand out.
    spec fn made(&self, h: Self::Handler) -> bool;

    fn make(&self) -> (r: Self::Handler)
        ensures
            self.made(r),
    ;
}

/// A factory that shares one handler among all connections; fit only for a
/// handler that keeps no per-connection state of its own.
pub struct StatelessMakeHandler<H>(Arc<H>);

impl<H> StatelessMakeHandler<H> {
    /// The handler shared by every connection.
    pub closed spec fn shared(&self) -> Arc<H> {
        self.0
    }

    pub fn new(handler: Arc<H>) -> (r: Self)
        ensures
            r.shared() == handler,
    {
        StatelessMakeHandler(handler)
    }
}

/// Relies on `Arc::clone`: the clone points at the same value.
#[verifier::external_body]
fn share<H>(a: &Arc<H>) -> (r: Arc<H>)
    ensures
        r == *a,
{
    Arc::clone(a)
}

impl<H> MakeHandler for StatelessMakeHandler<H> {
    type Handler = Arc<H>;

    open spec fn made(&self, h: Arc<H>) -> bool {
        h == self.shared()
    }

    fn make(&self) -> (r: Arc<H>) {
        share(&self.0)
    }
}

} // verus!

use std::sync::Arc;

use pgwire::api::{
    ClientInfoHolder, ConnectionEvent, MakeHandler, PeerAddr, PgWireConnectionState, Portal,
    ProtocolError, Statement, StatelessMakeHandler, Type, METADATA_DATABASE, METADATA_USER,
};
use pgwire::startup::{Authentication, Password, Startup};
use pgwire::store::{MemSessionStore, SessionStore};

fn peer() -> PeerAddr {
    PeerAddr { ip: vec![127, 0, 0, 1], port: 5432 }
}

fn stmt(q: &str) -> Arc<Statement> {
    Arc::new(Statement::new(q.to_string(), vec![Type::INT4]))
}

#[test]
fn store_put_get_del() {
    let mut store: MemSessionStore<u32> = MemSessionStore::new();
    assert_eq!(store.get("a"), None);
    store.put("a", 1);
    store.put("b", 2);
    assert_eq!(store.get("a"), Some(&1));
    assert_eq!(store.get("b"), Some(&2));
    store.del("a");
    assert_eq!(store.get("a"), None);
    assert_eq!(store.get("b"), Some(&2));
}

#[test]
fn store_delete_twice() {
    let mut store: MemSessionStore<u32> = MemSessionStore::new();
    store.put("s1", 7);
    store.del("s1");
    assert_eq!(store.get("s1"), None);
    store.del("s1");
    assert_eq!(store.get("s1"), None);
}

#[test]
fn store_put_replaces() {
    let mut store: MemSessionStore<Arc<Statement>> = MemSessionStore::new();
    let a = stmt("SELECT 1");
    let b = stmt("SELECT 2");
    store.put("s1", a);
    store.put("s1", b.clone());
    assert!(Arc::ptr_eq(store.get("s1").unwrap(), &b));
    assert_eq!(store.get("s1").unwrap().query, "SELECT 2");
}

#[test]
fn unnamed_statement_and_portal() {
    let mut client = ClientInfoHolder::new(peer(), false);
    let s = stmt("SELECT $1");
    client.stmt_store_mut().put("", s.clone());
    let bound = client.stmt_store().get("").unwrap().clone();
    let portal = Arc::new(Portal::new(bound, vec![Some(b"42".to_vec())]));
    client.portal_store_mut().put("", portal);
    assert!(client.portal_store().get("").is_some());
    client.portal_store_mut().del("");
    assert!(client.portal_store().get("").is_none());
    assert!(Arc::ptr_eq(client.stmt_store().get("").unwrap(), &s));
}

#[test]
fn query_before_startup_is_out_of_sequence() {
    let s = PgWireConnectionState::default();
    assert_eq!(s, PgWireConnectionState::AwaitingStartup);
    assert_eq!(s.transition(ConnectionEvent::QueryStarted), Err(ProtocolError::OutOfSequence));
    let mut client = ClientInfoHolder::new(peer(), true);
    assert_eq!(client.handle_event(ConnectionEvent::QueryStarted), Err(ProtocolError::OutOfSequence));
    assert_eq!(client.state(), PgWireConnectionState::AwaitingStartup);
}

#[test]
fn state_machine_transitions() {
    assert_eq!(PgWireConnectionState::AwaitingStartup.transition(ConnectionEvent::Startup), Ok(PgWireConnectionState::AuthenticationInProgress));
    assert_eq!(
        PgWireConnectionState::AuthenticationInProgress.transition(ConnectionEvent::CredentialsAccepted),
        Ok(PgWireConnectionState::ReadyForQuery)
    );
    assert_eq!(
        PgWireConnectionState::AuthenticationInProgress.transition(ConnectionEvent::CredentialsRejected),
        Err(ProtocolError::AuthenticationFailed)
    );
    assert_eq!(
        PgWireConnectionState::AuthenticationInProgress.transition(ConnectionEvent::QueryStarted),
        Err(ProtocolError::OutOfSequence)
    );
    assert_eq!(PgWireConnectionState::ReadyForQuery.transition(ConnectionEvent::QueryStarted), Ok(PgWireConnectionState::QueryInProgress));
    assert_eq!(PgWireConnectionState::QueryInProgress.transition(ConnectionEvent::QueryCompleted), Ok(PgWireConnectionState::ReadyForQuery));
    assert_eq!(PgWireConnectionState::QueryInProgress.transition(ConnectionEvent::QueryCancelled), Ok(PgWireConnectionState::ReadyForQuery));
    assert_eq!(
        PgWireConnectionState::QueryInProgress.transition(ConnectionEvent::QueryStarted),
        Err(ProtocolError::OutOfSequence)
    );
    assert_eq!(
        PgWireConnectionState::ReadyForQuery.transition(ConnectionEvent::Startup),
        Err(ProtocolError::OutOfSequence)
    );
}

#[test]
fn startup_handshake_promotes_metadata() {
    let mut client = ClientInfoHolder::new(peer(), false);
    let mut startup = Startup::default();
    startup.insert_parameter("user".to_string(), "alice".to_string());
    startup.insert_parameter("database".to_string(), "db1".to_string());
    assert_eq!(client.on_startup(&startup), Ok(()));
    assert_eq!(client.state(), PgWireConnectionState::AuthenticationInProgress);

    let challenge = Authentication::MD5Password((1, 2, 3, 4));
    assert_eq!(challenge.message_length(), 12);
    let reply = Password::new("md5abcdef".to_string());
    assert_eq!(reply.message_length(), 14);

    assert_eq!(client.handle_event(ConnectionEvent::CredentialsAccepted), Ok(()));
    assert_eq!(client.state(), PgWireConnectionState::ReadyForQuery);
    assert_eq!(client.metadata().get(METADATA_USER), Some(&"alice".to_string()));
    assert_eq!(client.metadata().get(METADATA_DATABASE), Some(&"db1".to_string()));
}

#[test]
fn second_startup_is_refused() {
    let mut client = ClientInfoHolder::new(peer(), false);
    let startup = Startup::default();
    assert_eq!(client.on_startup(&startup), Ok(()));
    assert_eq!(client.on_startup(&startup), Err(ProtocolError::OutOfSequence));
    assert_eq!(client.state(), PgWireConnectionState::AuthenticationInProgress);
    assert_eq!(client.metadata().get(METADATA_USER), None);
}

#[test]
fn rejected_credentials_keep_authenticating() {
    let mut client = ClientInfoHolder::new(peer(), false);
    client.on_startup(&Startup::default()).unwrap();
    assert_eq!(
        client.handle_event(ConnectionEvent::CredentialsRejected),
        Err(ProtocolError::AuthenticationFailed)
    );
    assert_eq!(client.state(), PgWireConnectionState::AuthenticationInProgress);
}

#[test]
fn client_info_accessors() {
    let mut client = ClientInfoHolder::new(peer(), true);
    assert_eq!(client.socket_addr(), &peer());
    assert!(client.is_secure());
    client.set_state(PgWireConnectionState::ReadyForQuery);
    assert_eq!(client.state(), PgWireConnectionState::ReadyForQuery);
    client.metadata_mut().put("application_name", "psql".to_string());
    assert_eq!(client.metadata().get("application_name"), Some(&"psql".to_string()));
}

#[test]
fn stateless_factory_shares_one_handler() {
    let handler = Arc::new(5u32);
    let factory = StatelessMakeHandler::new(handler.clone());
    let a = factory.make();
    let b = factory.make();
    assert!(Arc::ptr_eq(&a, &handler));
    assert!(Arc::ptr_eq(&a, &b));
}

fn cycle<S: SessionStore<u32>>(store: &mut S) -> (Option<u32>, Option<u32>) {
    store.put("p", 3);
    store.put("p", 4);
    let after_put = store.get("p").copied();
    store.del("p");
    store.del("p");
    (after_put, store.get("p").copied())
}

#[test]
fn store_through_trait() {
    let mut store: MemSessionStore<u32> = MemSessionStore::new();
    assert_eq!(cycle(&mut store), (Some(4), None));
}

use z11n_core::config::{Agent, Server, ServerToml};
use z11n_core::presence::{PresenceCache, RemovalCause};
use z11n_core::reconcile::{offline_update, reconcile};
use z11n_core::relay::{encode, deliver, FrameBuffer};
use z11n_core::session::{
    PRESENCE_CAPACITY,
    authenticate, extract_metadata_value, register_with_token, AgentRecord, MetadataError,
    SessionError, Z11nInterceptor, Z11nServer,
};
use z11n_core::state::AgentState;

fn s(x: &str) -> String {
    x.to_string()
}

fn server(ttl: u64) -> Z11nServer {
    Z11nServer::new(ttl, sled::Config::new().temporary(true).open().unwrap())
}

fn record(id: &str, token: &str, state: AgentState) -> AgentRecord {
    AgentRecord { id: s(id), token: s(token), state, version: s("1.0") }
}

#[test]
fn register_issues_a_token_that_alone_validates() {
    let mut srv = server(60);
    let reg = srv.register(&s("a1"), &s("1.0"), 1000).unwrap();
    let c = &srv.online_agent_cache;
    assert_eq!(reg.token.len(), 36);
    assert!(c.validate(&s("a1"), &reg.token, 1000));
    assert!(!c.validate(&s("a1"), &s("not-the-token"), 1000));
    assert_eq!(reg.record.id, "a1");
    assert_eq!(reg.record.token, reg.token);
    assert_eq!(reg.record.state, AgentState::Online);
    assert_eq!(reg.record.version, "1.0");
}

#[test]
fn register_again_supersedes_the_old_token() {
    let mut srv = server(60);
    let first = srv.register(&s("a1"), &s("1.0"), 1000).unwrap();
    let second = srv.register(&s("a1"), &s("1.1"), 1001).unwrap();
    let c = &srv.online_agent_cache;
    assert_ne!(first.token, second.token);
    assert!(!c.validate(&s("a1"), &first.token, 1001));
    assert!(c.validate(&s("a1"), &second.token, 1001));
}

#[test]
fn register_refuses_an_empty_identifier() {
    let mut srv = server(60);
    assert_eq!(srv.register(&s(""), &s("1.0"), 1000).unwrap_err(), SessionError::InvalidArgument);
    assert_eq!(srv.online_agent_cache.len(), 0);
}

#[test]
fn heartbeat_delivers_relayed_command_once() {
    let mut srv = server(60);
    let reg = register_with_token(&mut srv.online_agent_cache, &s("a1"), &s("1.0"), s("t1"), 1000).unwrap();
    assert_eq!(reg.token, "t1");
    let r = srv.heartbeat(Some("a1"), Some("t1"), 1005).unwrap();
    assert!(r.is_empty());
    let bytes = encode("a1", b"K");
    let mut rx = FrameBuffer::new();
    let frames = rx.receive(&bytes);
    assert_eq!(deliver(&mut srv.sled_db, &frames), 0);
    let r = srv.heartbeat(Some("a1"), Some("t1"), 1010).unwrap();
    assert_eq!(r, vec![b"K".to_vec()]);
    let r = srv.heartbeat(Some("a1"), Some("t1"), 1011).unwrap();
    assert!(r.is_empty());
}

#[test]
fn expiry_invalidates_and_marks_offline() {
    let ttl = 60;
    let mut c = PresenceCache::new(ttl, 100);
    let reg = register_with_token(&mut c, &s("a1"), &s("1.0"), s("t1"), 1000).unwrap();
    let later = 1000 + ttl + 5;
    assert!(!c.validate(&s("a1"), &s("t1"), later));
    let ev = c.expire(later);
    assert_eq!(ev.len(), 1);
    assert_eq!(ev[0].cause, RemovalCause::Expired);
    let w = offline_update(&ev[0], Some(&reg.record), &c, later).expect("offline is due");
    assert_eq!(w.state, AgentState::Offline);
    assert_eq!(w.id, "a1");
    assert_eq!(w.token, "t1");
}

#[test]
fn fresher_register_or_contact_blocks_offline() {
    let mut c = PresenceCache::new(60, 100);
    register_with_token(&mut c, &s("a1"), &s("1.0"), s("t1"), 1000).unwrap();
    let ev = c.expire(1100);
    // A new registration rotated the stored token.
    let stored = record("a1", "t2", AgentState::Online);
    assert!(offline_update(&ev[0], Some(&stored), &c, 1100).is_none());
    // The agent made contact again after the expiry.
    let stored = record("a1", "t1", AgentState::Online);
    c.touch(&s("a1"), &s("t1"), 1101);
    assert!(offline_update(&ev[0], Some(&stored), &c, 1101).is_none());
    // Already offline, or no record.
    let stored = record("a1", "t1", AgentState::Offline);
    assert!(offline_update(&ev[0], Some(&stored), &c, 1200).is_none());
    assert!(offline_update(&ev[0], None, &c, 1200).is_none());
}

#[test]
fn only_expiry_triggers_offline() {
    let mut c = PresenceCache::new(60, 100);
    c.touch(&s("a1"), &s("t1"), 1000);
    let e = c.remove(&s("a1")).unwrap();
    let stored = record("a1", "t1", AgentState::Online);
    assert!(offline_update(&e, Some(&stored), &c, 1000).is_none());
}

#[test]
fn heartbeat_without_credentials_is_unauthenticated() {
    let mut srv = server(60);
    assert_eq!(srv.heartbeat(None, Some("t1"), 1).unwrap_err(), SessionError::Unauthenticated);
    assert_eq!(srv.heartbeat(Some("a1"), None, 1).unwrap_err(), SessionError::Unauthenticated);
    assert_eq!(srv.heartbeat(Some(""), Some("t1"), 1).unwrap_err(), SessionError::Unauthenticated);
    assert_eq!(srv.heartbeat(Some("a1"), Some(""), 1).unwrap_err(), SessionError::Unauthenticated);
    assert_eq!(srv.online_agent_cache.len(), 0);
}

#[test]
fn heartbeat_with_zero_ttl_is_unauthenticated() {
    let mut srv = server(0);
    register_with_token(&mut srv.online_agent_cache, &s("a1"), &s("1.0"), s("t1"), 1).unwrap();
    assert_eq!(srv.heartbeat(Some("a1"), Some("t1"), 1).unwrap_err(), SessionError::Unauthenticated);
}

#[test]
fn heartbeat_refreshes_presence() {
    let mut c = PresenceCache::new(60, 100);
    assert_eq!(authenticate(&mut c, Some("a1"), Some("t1"), 1000).unwrap_err(), SessionError::Unauthenticated);
    assert_eq!(c.len(), 0);
    c.touch(&s("a1"), &s("t1"), 1000);
    assert_eq!(authenticate(&mut c, Some("a1"), Some("t1"), 1050).unwrap(), "a1");
    assert!(c.validate(&s("a1"), &s("t1"), 1109));
}

#[test]
fn heartbeat_with_another_token_is_refused_and_changes_nothing() {
    let mut srv = server(60);
    register_with_token(&mut srv.online_agent_cache, &s("a1"), &s("1.0"), s("t1"), 1000).unwrap();
    srv.sled_db.append("a1", b"K").unwrap();
    assert_eq!(srv.heartbeat(Some("a1"), Some("t2"), 1001).unwrap_err(), SessionError::Unauthenticated);
    assert!(srv.online_agent_cache.validate(&s("a1"), &s("t1"), 1001));
    assert!(!srv.online_agent_cache.validate(&s("a1"), &s("t2"), 1001));
    assert_eq!(srv.heartbeat(Some("a1"), Some("t1"), 1002).unwrap(), vec![b"K".to_vec()]);
}

#[test]
fn heartbeat_after_expiry_is_unauthenticated() {
    let ttl = 60;
    let mut srv = server(ttl);
    register_with_token(&mut srv.online_agent_cache, &s("a1"), &s("1.0"), s("t1"), 1000).unwrap();
    srv.sled_db.append("a1", b"K").unwrap();
    assert_eq!(
        srv.heartbeat(Some("a1"), Some("t1"), 1000 + ttl + 5).unwrap_err(),
        SessionError::Unauthenticated
    );
    // The refused heartbeat drained nothing.
    assert_eq!(srv.sled_db.drain("a1").unwrap(), vec![b"K".to_vec()]);
}

#[test]
fn corrupted_mailbox_gives_an_empty_heartbeat() {
    let mut srv = server(60);
    register_with_token(&mut srv.online_agent_cache, &s("a1"), &s("1.0"), s("t1"), 1000).unwrap();
    srv.sled_db.db.insert("a1", vec![0xff, 0x00]).unwrap();
    assert!(srv.heartbeat(Some("a1"), Some("t1"), 1001).unwrap().is_empty());
    assert!(srv.sled_db.db.get("a1").unwrap().is_none());
}

#[test]
fn metadata_values() {
    assert_eq!(extract_metadata_value(None), Err(MetadataError::Missing));
    assert_eq!(extract_metadata_value(Some("")), Err(MetadataError::Empty));
    assert_eq!(extract_metadata_value(Some("a1")), Ok("a1"));
    let i = Z11nInterceptor {};
    assert!(i.call(Some("a1")).is_ok());
    assert_eq!(i.call(None), Err(SessionError::Unauthenticated));
    assert_eq!(i.call(Some("")), Err(SessionError::Unauthenticated));
}

#[test]
fn reconcile_restores_and_promotes() {
    let mut c = PresenceCache::new(60, 100);
    c.touch(&s("live-only"), &s("tl"), 1000);
    let online = vec![record("a1", "t1", AgentState::Online), record("live-only-not", "x", AgentState::Online)];
    let promote = reconcile(&mut c, &online, 1010);
    assert_eq!(promote, vec![s("live-only")]);
    assert!(c.validate(&s("a1"), &s("t1"), 1010));
    assert!(c.validate(&s("a1"), &s("t1"), 1069));
    assert!(c.validate(&s("live-only"), &s("tl"), 1010));
}

#[test]
fn reconcile_twice_writes_nothing_the_second_time() {
    let mut c = PresenceCache::new(60, 100);
    c.touch(&s("a3"), &s("t3"), 1000);
    let mut online = vec![record("a1", "t1", AgentState::Online), record("a2", "t2", AgentState::Online)];
    let first = reconcile(&mut c, &online, 1001);
    assert_eq!(first, vec![s("a3")]);
    for id in &first {
        online.push(record(id, "t3", AgentState::Online));
    }
    let before = c.len();
    let second = reconcile(&mut c, &online, 1001);
    assert!(second.is_empty());
    assert_eq!(c.len(), before);
}

#[test]
fn config_ttl() {
    let cfg = ServerToml {
        server: Server { addr: s("0.0.0.0:50051") },
        agent: Agent { heartbeat_delay: 5, offline_ex: 30 },
    };
    assert_eq!(cfg.agent.presence_ttl(), Some(30));
    assert_eq!(Agent { heartbeat_delay: 5, offline_ex: -1 }.presence_ttl(), None);
    assert_eq!(cfg.server.addr, "0.0.0.0:50051");
}

#[test]
fn new_server_is_empty_with_the_service_capacity() {
    let srv = server(30);
    assert_eq!(srv.online_agent_cache.capacity, PRESENCE_CAPACITY);
    assert_eq!(PRESENCE_CAPACITY, 50000);
    assert_eq!(srv.online_agent_cache.ttl, 30);
    assert_eq!(srv.online_agent_cache.len(), 0);
}

#[test]
fn registration_reply_follows_the_store_write() {
    let mut srv = server(60);
    let reg = srv.register(&s("a1"), &s("1.0"), 1).unwrap();
    let token = reg.token.clone();
    assert_eq!(reg.reply(true).unwrap(), token);
    let reg = srv.register(&s("a1"), &s("1.0"), 2).unwrap();
    assert_eq!(reg.reply(false).unwrap_err(), SessionError::Internal);
}

use z11n_core::presence::{PresenceCache, RemovalCause};

fn s(x: &str) -> String {
    x.to_string()
}

#[test]
fn touch_then_validate() {
    let mut c = PresenceCache::new(30, 10);
    assert!(c.touch(&s("a1"), &s("t1"), 100).is_none());
    assert!(c.validate(&s("a1"), &s("t1"), 100));
    assert!(c.validate(&s("a1"), &s("t1"), 129));
    assert!(!c.validate(&s("a1"), &s("t1"), 130));
    assert!(!c.validate(&s("a1"), &s("t2"), 100));
    assert!(!c.validate(&s("a2"), &s("t1"), 100));
}

#[test]
fn touch_overwrites_token_and_resets_ttl() {
    let mut c = PresenceCache::new(30, 10);
    c.touch(&s("a1"), &s("t1"), 100);
    c.touch(&s("a1"), &s("t2"), 120);
    assert_eq!(c.len(), 1);
    assert!(!c.validate(&s("a1"), &s("t1"), 121));
    assert!(c.validate(&s("a1"), &s("t2"), 149));
    assert!(!c.validate(&s("a1"), &s("t2"), 150));
}

#[test]
fn expire_sweeps_only_due_entries() {
    let mut c = PresenceCache::new(30, 10);
    c.touch(&s("a1"), &s("t1"), 100);
    c.touch(&s("a2"), &s("t2"), 110);
    let ev = c.expire(135);
    assert_eq!(ev.len(), 1);
    assert_eq!(ev[0].agent_id, "a1");
    assert_eq!(ev[0].token, "t1");
    assert_eq!(ev[0].cause, RemovalCause::Expired);
    assert_eq!(c.len(), 1);
    assert!(c.validate(&s("a2"), &s("t2"), 135));
    assert!(c.expire(135).is_empty());
    assert_eq!(c.expire(140).len(), 1);
    assert_eq!(c.len(), 0);
}

#[test]
fn full_cache_evicts_earliest_expiry_with_size_cause() {
    let mut c = PresenceCache::new(30, 2);
    c.touch(&s("a1"), &s("t1"), 100);
    c.touch(&s("a2"), &s("t2"), 90);
    // Refreshing a present agent evicts nothing.
    assert!(c.touch(&s("a1"), &s("t1"), 105).is_none());
    let e = c.touch(&s("a3"), &s("t3"), 106).expect("a full cache makes room");
    assert_eq!(e.agent_id, "a2");
    assert_eq!(e.token, "t2");
    assert_eq!(e.cause, RemovalCause::Size);
    assert_eq!(c.len(), 2);
    assert!(c.validate(&s("a3"), &s("t3"), 106));
    assert!(c.validate(&s("a1"), &s("t1"), 106));
}

#[test]
fn explicit_remove() {
    let mut c = PresenceCache::new(30, 4);
    c.touch(&s("a1"), &s("t1"), 100);
    let e = c.remove(&s("a1")).expect("present");
    assert_eq!(e.cause, RemovalCause::Explicit);
    assert_eq!(e.token, "t1");
    assert!(!c.validate(&s("a1"), &s("t1"), 100));
    assert!(c.remove(&s("a1")).is_none());
}

#[test]
fn zero_ttl_never_validates() {
    let mut c = PresenceCache::new(0, 4);
    c.touch(&s("a1"), &s("t1"), 100);
    assert!(!c.validate(&s("a1"), &s("t1"), 100));
    assert!(!c.is_live(&s("a1"), 100));
}

#[test]
fn full_cache_evicts_an_already_expired_entry_as_expired() {
    let mut c = PresenceCache::new(30, 2);
    c.touch(&s("a1"), &s("t1"), 100);
    c.touch(&s("a2"), &s("t2"), 120);
    let e = c.touch(&s("a3"), &s("t3"), 140).expect("a full cache makes room");
    assert_eq!(e.agent_id, "a1");
    assert_eq!(e.cause, RemovalCause::Expired);
}

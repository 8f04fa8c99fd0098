//! The session protocol: Register issues a fresh token and marks the agent
//! present; Heartbeat refreshes presence, checks the token and hands over the
//! agent's pending commands.

use vstd::prelude::*;
use crate::codec::views;
use crate::mailbox::{drained_as, MailboxError, MailboxStore};
use crate::presence::PresenceCache;
use crate::state::AgentState;

verus! {

/// An agent as the durable store records it.
#[derive(Debug)]
pub struct AgentRecord {
    pub id: String,
    pub token: String,
    pub state: AgentState,
    pub version: String,
}

/// Why a request of the session protocol was refused.
#[derive(Clone, Copy, Debug, PartialEq, Eq, Structural)]
pub enum SessionError {
    /// A required field of the request is empty.
    InvalidArgument,
    /// Credentials missing, empty, or not those of a live session.
    Unauthenticated,
    /// A store failed; the request may be retried.
    Unavailable,
    /// The durable store refused the registration's record; the request may
    /// be retried.
    Internal,
}

/// Why a request header could not be used.
#[derive(Clone, Copy, Debug, PartialEq, Eq, Structural)]
pub enum MetadataError {
    Missing,
    Empty,
}

/// A request header that is present and non-empty.
pub open spec fn given(value: Option<&str>) -> bool {
    value is Some && value.unwrap()@.len() > 0
}

/// The value of a request header, which must be present and non-empty.
pub fn extract_metadata_value(value: Option<&str>) -> (r: Result<&str, MetadataError>)
    ensures
        value is None ==> r == Err::<&str, MetadataError>(MetadataError::Missing),
        value is Some && value.unwrap()@.len() == 0 ==> r == Err::<&str, MetadataError>(
            MetadataError::Empty,
        ),
        given(value) ==> r == Ok::<&str, MetadataError>(value.unwrap()),
{
    match value {
        Some(v) => {
            if v.unicode_len() == 0 {
                Err(MetadataError::Empty)
            } else {
                Ok(v)
            }
        },
        None => Err(MetadataError::Missing),
    }
}

/// The check made on every request before it reaches a handler: the request
/// must name its agent.
#[derive(Clone, Copy, Debug)]
pub struct Z11nInterceptor {}

impl Z11nInterceptor {
    /// Admits a request whose `agent_id` header is present and non-empty.
    pub fn call(&self, agent_id: Option<&str>) -> (r: Result<(), SessionError>)
        ensures
            r is Ok <==> given(agent_id),
            r is Err ==> r == Err::<(), SessionError>(SessionError::Unauthenticated),
    {
        match extract_metadata_value(agent_id) {
            Ok(_) => Ok(()),
            Err(_) => Err(SessionError::Unauthenticated),
        }
    }
}

/// Relies on `uuid::Uuid::new_v4` and its hyphenated `to_string`: a random
/// identifier written as 36 characters.
#[verifier::external_body]
fn new_token() -> (r: String)
    ensures
        r@.len() == 36,
{
    uuid::Uuid::new_v4().to_string()
}

/// The outcome of a registration: the token to hand to the agent and the
/// record to upsert into the durable store.
#[derive(Debug)]
pub struct Registration {
    pub token: String,
    pub record: AgentRecord,
}

impl Registration {
    /// The answer to the agent once the record has been upserted into the
    /// durable store, or not: the token, or an internal error when the write
    /// failed.
    pub fn reply(self, record_written: bool) -> (r: Result<String, SessionError>)
        ensures
            record_written ==> r is Ok && r.unwrap()@ == self.token@,
            !record_written ==> r == Err::<String, SessionError>(SessionError::Internal),
    {
        if record_written {
            Ok(self.token)
        } else {
            Err(SessionError::Internal)
        }
    }
}

/// Registers `agent_id` under the session token `token`: the cache now holds
/// that token for the agent, superseding any earlier one, and the returned
/// record marks the agent online with `version`. An empty identifier is
/// refused.
pub fn register_with_token(
    cache: &mut PresenceCache,
    agent_id: &String,
    version: &String,
    token: String,
    now: u64,
) -> (r: Result<Registration, SessionError>)
    requires
        old(cache).wf(),
        now + old(cache).ttl <= u64::MAX,
    ensures
        final(cache).wf(),
        final(cache).ttl == old(cache).ttl,
        final(cache).capacity == old(cache).capacity,
        agent_id@.len() == 0 ==> r == Err::<Registration, SessionError>(
            SessionError::InvalidArgument,
        ) && *final(cache) == *old(cache),
        agent_id@.len() > 0 ==> r is Ok,
        r matches Ok(reg) ==> {
            &&& reg.token@ == token@
            &&& reg.record.id@ == agent_id@
            &&& reg.record.token@ == token@
            &&& reg.record.state == AgentState::Online
            &&& reg.record.version@ == version@
            &&& final(cache).session(agent_id@) == Some((token@, (now + old(cache).ttl) as u64))
        },
        agent_id@.len() > 0 && (old(cache).session(agent_id@) is Some || old(cache).entries.len()
            < old(cache).capacity) ==> forall|other: Seq<char>|
            other != agent_id@ ==> final(cache).session(other) == old(cache).session(other),
{
    if agent_id.as_str().unicode_len() == 0 {
        return Err(SessionError::InvalidArgument);
    }
    let _ = cache.touch(agent_id, &token, now);
    let record = AgentRecord {
        id: agent_id.clone(),
        token: token.clone(),
        state: AgentState::Online,
        version: version.clone(),
    };
    Ok(Registration { token, record })
}

/// The credential check of a heartbeat: the token must be that of the
/// agent's live entry. Only then is the entry refreshed, to live a full time
/// to live from `now`; a refused request changes nothing. Missing or empty
/// credentials are refused.
pub fn authenticate(
    cache: &mut PresenceCache,
    agent_id: Option<&str>,
    token: Option<&str>,
    now: u64,
) -> (r: Result<String, SessionError>)
    requires
        old(cache).wf(),
        now + old(cache).ttl <= u64::MAX,
    ensures
        final(cache).wf(),
        final(cache).ttl == old(cache).ttl,
        final(cache).capacity == old(cache).capacity,
        r is Ok <==> given(agent_id) && given(token) && old(cache).accepts(
            agent_id.unwrap()@,
            token.unwrap()@,
            now,
        ),
        r is Err ==> r == Err::<String, SessionError>(SessionError::Unauthenticated) && *final(cache)
            == *old(cache),
        r matches Ok(id) ==> {
            &&& id@ == agent_id.unwrap()@
            &&& final(cache).session(id@) == Some((token.unwrap()@, (now + old(cache).ttl) as u64))
            &&& forall|other: Seq<char>|
                other != id@ ==> final(cache).session(other) == old(cache).session(other)
        },
{
    let a = match extract_metadata_value(agent_id) {
        Ok(v) => v,
        Err(_) => {
            return Err(SessionError::Unauthenticated);
        },
    };
    let t = match extract_metadata_value(token) {
        Ok(v) => v,
        Err(_) => {
            return Err(SessionError::Unauthenticated);
        },
    };
    let id = a.to_string();
    let tok = t.to_string();
    if !cache.validate(&id, &tok, now) {
        return Err(SessionError::Unauthenticated);
    }
    let _ = cache.touch(&id, &tok, now);
    Ok(id)
}

/// The agent-facing service: the presence cache it authenticates against and
/// the mailbox store it delivers from, both owned by this one instance.
pub struct Z11nServer {
    pub online_agent_cache: PresenceCache,
    pub sled_db: MailboxStore,
}

/// How many agents the presence cache holds at most.
pub const PRESENCE_CAPACITY: usize = 50000;

impl Z11nServer {
    /// A service with an empty presence cache of `PRESENCE_CAPACITY` entries
    /// living `ttl` seconds, over the mailbox store `db`.
    pub fn new(ttl: u64, db: sled::Db) -> (r: Z11nServer)
        ensures
            r.online_agent_cache.wf(),
            r.online_agent_cache.ttl == ttl,
            r.online_agent_cache.capacity == PRESENCE_CAPACITY,
            forall|id: Seq<char>| r.online_agent_cache.session(id) is None,
            r.sled_db.handle() == db,
            r.sled_db.appended_log().len() == 0,
            r.sled_db.drained_log().len() == 0,
    {
        Z11nServer {
            online_agent_cache: PresenceCache::new(ttl, PRESENCE_CAPACITY),
            sled_db: MailboxStore::new(db),
        }
    }

    /// Register: issues a fresh random token for `agent_id` and registers it
    /// as `register_with_token` does.
    pub fn register(&mut self, agent_id: &String, version: &String, now: u64) -> (r: Result<
        Registration,
        SessionError,
    >)
        requires
            old(self).online_agent_cache.wf(),
            now + old(self).online_agent_cache.ttl <= u64::MAX,
        ensures
            final(self).online_agent_cache.wf(),
            final(self).online_agent_cache.ttl == old(self).online_agent_cache.ttl,
            final(self).online_agent_cache.capacity == old(self).online_agent_cache.capacity,
            final(self).sled_db == old(self).sled_db,
            agent_id@.len() == 0 ==> r == Err::<Registration, SessionError>(
                SessionError::InvalidArgument,
            ) && final(self).online_agent_cache == old(self).online_agent_cache,
            agent_id@.len() > 0 ==> r is Ok,
            r matches Ok(reg) ==> {
                &&& reg.token@.len() == 36
                &&& reg.record.id@ == agent_id@
                &&& reg.record.token@ == reg.token@
                &&& reg.record.state == AgentState::Online
                &&& reg.record.version@ == version@
                &&& final(self).online_agent_cache.session(agent_id@) == Some(
                    (reg.token@, (now + old(self).online_agent_cache.ttl) as u64),
                )
            },
            agent_id@.len() > 0 && (old(self).online_agent_cache.session(agent_id@) is Some
                || old(self).online_agent_cache.entries.len() < old(self).online_agent_cache.capacity)
                ==> forall|other: Seq<char>|
                other != agent_id@ ==> final(self).online_agent_cache.session(other) == old(
                    self,
                ).online_agent_cache.session(other),
    {
        let token = new_token();
        register_with_token(&mut self.online_agent_cache, agent_id, version, token, now)
    }

    /// Heartbeat: authenticates the agent as `authenticate` does and, on
    /// success, drains the agent's own mailbox and returns its pending
    /// commands, oldest first: what the removed value decodes to, none when
    /// nothing was pending or the mailbox was corrupted. A refused heartbeat
    /// drains nothing.
    pub fn heartbeat(&mut self, agent_id: Option<&str>, token: Option<&str>, now: u64) -> (r: Result<
        Vec<Vec<u8>>,
        SessionError,
    >)
        requires
            old(self).online_agent_cache.wf(),
            now + old(self).online_agent_cache.ttl <= u64::MAX,
        ensures
            final(self).online_agent_cache.wf(),
            final(self).online_agent_cache.ttl == old(self).online_agent_cache.ttl,
            final(self).online_agent_cache.capacity == old(self).online_agent_cache.capacity,
            final(self).sled_db.handle() == old(self).sled_db.handle(),
            final(self).sled_db.appended_log() == old(self).sled_db.appended_log(),
            ({
                let ok = given(agent_id) && given(token) && old(self).online_agent_cache.accepts(
                    agent_id.unwrap()@,
                    token.unwrap()@,
                    now,
                );
                &&& !ok ==> r == Err::<Vec<Vec<u8>>, SessionError>(SessionError::Unauthenticated)
                    && final(self).online_agent_cache == old(self).online_agent_cache
                    && final(self).sled_db.drained_log() == old(self).sled_db.drained_log()
                &&& ok ==> {
                    &&& r is Err ==> r == Err::<Vec<Vec<u8>>, SessionError>(SessionError::Unavailable)
                        && final(self).sled_db.drained_log() == old(self).sled_db.drained_log()
                    &&& r matches Ok(cmds) ==> {
                        &&& final(self).sled_db.drained_log().len() == old(self).sled_db.drained_log().len() + 1
                        &&& final(self).sled_db.drained_log().drop_last() == old(self).sled_db.drained_log()
                        &&& final(self).sled_db.drained_log().last().0 == agent_id.unwrap()@
                        &&& drained_as(final(self).sled_db.drained_log().last().1, views(cmds@))
                    }
                    &&& final(self).online_agent_cache.session(agent_id.unwrap()@) == Some(
                        (token.unwrap()@, (now + old(self).online_agent_cache.ttl) as u64),
                    )
                    &&& forall|other: Seq<char>|
                        other != agent_id.unwrap()@ ==> final(self).online_agent_cache.session(other)
                            == old(self).online_agent_cache.session(other)
                }
            }),
    {
        let id = match authenticate(&mut self.online_agent_cache, agent_id, token, now) {
            Ok(id) => id,
            Err(e) => {
                return Err(e);
            },
        };
        match self.sled_db.drain(id.as_str()) {
            Ok(cmds) => Ok(cmds),
            Err(MailboxError::Unavailable) => Err(SessionError::Unavailable),
        }
    }
}

/// Right after Register hands out token T (the cache then holds T for the
/// agent until `now + ttl`), T validates for the agent for the whole time to
/// live, and no other token does.
pub proof fn lemma_registered_token_alone_validates(
    c: PresenceCache,
    agent_id: Seq<char>,
    token: Seq<char>,
    now: u64,
)
    requires
        now + c.ttl <= u64::MAX,
        0 < c.ttl,
        c.session(agent_id) == Some((token, (now + c.ttl) as u64)),
    ensures
        forall|at: u64| now <= at < now + c.ttl ==> c.accepts(agent_id, token, at),
        forall|other: Seq<char>, at: u64| other != token ==> !c.accepts(agent_id, other, at),
{
}

} // verus!

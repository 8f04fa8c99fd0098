//! Keeping the presence cache and the durable store's lifecycle states in
//! step: the periodic reconciliation pass, and the conditional downgrade to
//! Offline that follows an entry's expiry.

use vstd::prelude::*;
use crate::presence::{Eviction, PresenceCache, RemovalCause};
use crate::session::AgentRecord;
use crate::state::AgentState;

verus! {

/// `id` has a live entry in `c` at `now`.
pub open spec fn live(c: PresenceCache, id: Seq<char>, now: u64) -> bool {
    c.session(id) is Some && now < c.session(id).unwrap().1
}

pub open spec fn record_views(recs: Seq<AgentRecord>) -> Seq<(Seq<char>, Seq<char>)> {
    recs.map_values(|r: AgentRecord| (r.id@, r.token@))
}

pub open spec fn names(v: Seq<String>) -> Seq<Seq<char>> {
    v.map_values(|s: String| s@)
}

/// `id` is among the records `online`.
pub open spec fn listed(online: Seq<(Seq<char>, Seq<char>)>, id: Seq<char>) -> bool {
    exists|k: int| 0 <= k < online.len() && online[k].0 == id
}

pub open spec fn distinct_ids(online: Seq<(Seq<char>, Seq<char>)>) -> bool {
    forall|a: int, b: int|
        0 <= a < online.len() && 0 <= b < online.len() && a != b ==> online[a].0 != online[b].0
}

/// What one reconciliation pass over `old` with the store's online records
/// `online` leaves behind as `new`, and the identifiers `promote` whose
/// records it moves to Online:
/// - every entry of `new` is one of `old`, or an online record restored with
///   its stored token for a full time to live;
/// - an online record with no live entry in `old` is restored (given room,
///   so that no restore pushes another entry out);
/// - an entry that had no reason to change is kept;
/// - `promote` lists, once each, exactly the live entries of `new` that are
///   not among the online records.
pub open spec fn reconciled(
    old: PresenceCache,
    online: Seq<(Seq<char>, Seq<char>)>,
    now: u64,
    new: PresenceCache,
    promote: Seq<Seq<char>>,
) -> bool {
    &&& forall|id: Seq<char>|
        #![trigger new.session(id)]
        new.session(id) is Some ==> new.session(id) == old.session(id) || exists|k: int|
            0 <= k < online.len() && online[k].0 == id && new.session(id) == Some(
                (online[k].1, (now + old.ttl) as u64),
            )
    &&& old.entries.len() + online.len() <= old.capacity ==> forall|k: int|
        #![trigger online[k]]
        0 <= k < online.len() && !live(old, online[k].0, now) ==> new.session(online[k].0)
            == Some((online[k].1, (now + old.ttl) as u64))
    &&& old.entries.len() + online.len() <= old.capacity ==> forall|id: Seq<char>|
        #![trigger new.session(id)]
        !(listed(online, id) && !live(old, id, now)) ==> new.session(id) == old.session(id)
    &&& forall|id: Seq<char>|
        #![trigger promote.contains(id)]
        promote.contains(id) <==> live(new, id, now) && !listed(online, id)
    &&& forall|a: int, b: int|
        0 <= a < promote.len() && 0 <= b < promote.len() && a != b ==> promote[a] != promote[b]
}

/// Whether one of `online` carries the identifier `id`.
fn is_listed(online: &Vec<AgentRecord>, id: &String) -> (r: bool)
    ensures
        r == listed(record_views(online@), id@),
{
    let mut k: usize = 0;
    while k < online.len()
        invariant
            k <= online@.len(),
            forall|j: int| 0 <= j < k ==> online@[j].id@ != id@,
        decreases online@.len() - k,
    {
        if online[k].id == *id {
            assert(record_views(online@)[k as int].0 == id@);
            return true;
        }
        k = k + 1;
    }
    proof {
        assert forall|j: int| 0 <= j < record_views(online@).len() implies record_views(online@)[j].0
            != id@ by {
            assert(record_views(online@)[j].0 == online@[j].id@);
        }
    }
    false
}

/// The agents live in `cache` at `now` that none of `online` carries, in the
/// cache's order.
fn promotions(cache: &PresenceCache, online: &Vec<AgentRecord>, now: u64) -> (promote: Vec<String>)
    requires
        cache.wf(),
    ensures
        forall|id: Seq<char>|
            #![trigger names(promote@).contains(id)]
            names(promote@).contains(id) <==> live(*cache, id, now) && !listed(
                record_views(online@),
                id,
            ),
        forall|a: int, b: int|
            0 <= a < promote@.len() && 0 <= b < promote@.len() && a != b ==> promote@[a]@ != promote@[b]@,
{
    let ghost es = cache.entries@;
    let ghost ov = record_views(online@);
    let mut promote: Vec<String> = Vec::new();
    let ghost mut pidx: Seq<int> = Seq::empty();
    let mut i: usize = 0;
    while i < cache.entries.len()
        invariant
            es == cache.entries@,
            cache.wf(),
            ov == record_views(online@),
            i <= es.len(),
            promote@.len() == pidx.len(),
            forall|a: int|
                #![trigger pidx[a]]
                0 <= a < pidx.len() ==> 0 <= pidx[a] < i && promote@[a]@ == es[pidx[a]].agent_id@
                    && now < es[pidx[a]].expires_at && !listed(ov, es[pidx[a]].agent_id@),
            forall|a: int, b: int| 0 <= a < b < pidx.len() ==> pidx[a] < pidx[b],
            forall|j: int|
                0 <= j < i && now < #[trigger] es[j].expires_at && !listed(ov, es[j].agent_id@)
                    ==> exists|a: int| 0 <= a < pidx.len() && pidx[a] == j,
        decreases es.len() - i,
    {
        let e = &cache.entries[i];
        if now < e.expires_at && !is_listed(online, &e.agent_id) {
            let ghost prev = pidx;
            promote.push(e.agent_id.clone());
            proof {
                pidx = pidx.push(i as int);
                assert forall|j: int|
                    0 <= j < i + 1 && now < #[trigger] es[j].expires_at && !listed(ov, es[j].agent_id@)
                        implies exists|a: int| 0 <= a < pidx.len() && pidx[a] == j by {
                    if j == i {
                        assert(pidx[pidx.len() - 1] == j);
                    } else {
                        let a = choose|a: int| 0 <= a < prev.len() && prev[a] == j;
                        assert(pidx[a] == j);
                    }
                }
            }
        } else {
            proof {
                assert forall|j: int|
                    0 <= j < i + 1 && now < #[trigger] es[j].expires_at && !listed(ov, es[j].agent_id@)
                        implies exists|a: int| 0 <= a < pidx.len() && pidx[a] == j by {
                    assert(j < i);
                }
            }
        }
        i = i + 1;
    }
    proof {
        let pv = names(promote@);
        assert forall|id: Seq<char>|
            #![trigger pv.contains(id)]
            pv.contains(id) <==> live(*cache, id, now) && !listed(ov, id) by {
            if pv.contains(id) {
                let a = choose|a: int| 0 <= a < pv.len() && pv[a] == id;
                assert(pv[a] == promote@[a]@);
                crate::presence::lemma_lookup_at(es, pidx[a]);
            }
            if live(*cache, id, now) && !listed(ov, id) {
                let j = choose|j: int| 0 <= j < es.len() && es[j].agent_id@ == id;
                crate::presence::lemma_lookup_at(es, j);
                let a = choose|a: int| 0 <= a < pidx.len() && pidx[a] == j;
                assert(pv[a] == id);
            }
        }
        assert forall|a: int, b: int|
            0 <= a < promote@.len() && 0 <= b < promote@.len() && a != b implies promote@[a]@
            != promote@[b]@ by {
            assert(pidx[a] != pidx[b]) by {
                if a < b {
                    assert(pidx[a] < pidx[b]);
                } else {
                    assert(pidx[b] < pidx[a]);
                }
            }
        }
    }
    promote
}

/// The state of a reconciliation pass after the first `k` online records.
pub open spec fn restored_upto(
    c0: PresenceCache,
    ov: Seq<(Seq<char>, Seq<char>)>,
    k: int,
    now: u64,
    c: PresenceCache,
) -> bool {
    &&& forall|id: Seq<char>|
        #![trigger c.session(id)]
        c.session(id) is Some ==> c.session(id) == c0.session(id) || exists|j: int|
            0 <= j < k && ov[j].0 == id && c.session(id) == Some((ov[j].1, (now + c0.ttl) as u64))
    &&& c0.entries.len() + ov.len() <= c0.capacity ==> {
        &&& c.entries.len() <= c0.entries.len() + k
        &&& forall|j: int|
            #![trigger ov[j]]
            0 <= j < k && !live(c0, ov[j].0, now) ==> c.session(ov[j].0) == Some(
                (ov[j].1, (now + c0.ttl) as u64),
            )
        &&& forall|id: Seq<char>|
            #![trigger c.session(id)]
            !(exists|j: int| 0 <= j < k && ov[j].0 == id && !live(c0, id, now)) ==> c.session(id)
                == c0.session(id)
    }
}

proof fn lemma_restore_step(
    c0: PresenceCache,
    ov: Seq<(Seq<char>, Seq<char>)>,
    k: int,
    now: u64,
    before: PresenceCache,
    after: PresenceCache,
)
    requires
        0 <= k < ov.len(),
        distinct_ids(ov),
        before.ttl == c0.ttl,
        before.capacity == c0.capacity,
        restored_upto(c0, ov, k, now, before),
        live(before, ov[k].0, now) ==> after == before,
        !live(before, ov[k].0, now) ==> {
            &&& after.session(ov[k].0) == Some((ov[k].1, (now + c0.ttl) as u64))
            &&& forall|id: Seq<char>|
                #![trigger after.session(id)]
                id != ov[k].0 ==> after.session(id) == before.session(id) || after.session(id) is None
            &&& before.entries.len() < before.capacity ==> forall|id: Seq<char>|
                #![trigger after.session(id)]
                id != ov[k].0 ==> after.session(id) == before.session(id)
            &&& after.entries.len() <= before.entries.len() + 1
        },
    ensures
        restored_upto(c0, ov, k + 1, now, after),
{
    let room = c0.entries.len() + ov.len() <= c0.capacity;
    let idk = ov[k].0;
    if room && live(before, idk, now) && !live(c0, idk, now) {
        assert(before.session(idk) != c0.session(idk));
        let j = choose|j: int| 0 <= j < k && ov[j].0 == idk && !live(c0, idk, now);
        assert(ov[j].0 == ov[k].0);
    }
    assert forall|id: Seq<char>|
        #![trigger after.session(id)]
        after.session(id) is Some implies after.session(id) == c0.session(id) || exists|j: int|
            0 <= j < k + 1 && ov[j].0 == id && after.session(id) == Some(
                (ov[j].1, (now + c0.ttl) as u64),
            ) by {
        if id == idk && !live(before, idk, now) {
            assert(ov[k].0 == id);
        } else if after.session(id) != c0.session(id) {
            assert(after.session(id) == before.session(id));
            let j = choose|j: int|
                0 <= j < k && ov[j].0 == id && before.session(id) == Some(
                    (ov[j].1, (now + c0.ttl) as u64),
                );
            assert(0 <= j < k + 1 && ov[j].0 == id);
        }
    }
    if room {
        assert forall|j: int|
            #![trigger ov[j]]
            0 <= j < k + 1 && !live(c0, ov[j].0, now) implies after.session(ov[j].0) == Some(
                (ov[j].1, (now + c0.ttl) as u64),
            ) by {
            if j < k {
                assert(ov[j].0 != ov[k].0);
            }
        }
        assert forall|id: Seq<char>|
            #![trigger after.session(id)]
            !(exists|j: int| 0 <= j < k + 1 && ov[j].0 == id && !live(c0, id, now)) implies after.session(id)
                == c0.session(id) by {
            if exists|j: int| 0 <= j < k && ov[j].0 == id && !live(c0, id, now) {
                let j = choose|j: int| 0 <= j < k && ov[j].0 == id && !live(c0, id, now);
                assert(0 <= j < k + 1);
            }
            if id == idk {
                assert(0 <= k < k + 1 && ov[k].0 == id);
            }
        }
    }
}

/// One reconciliation pass: restores into the cache every online record
/// whose agent has no live entry, with the record's token, and returns the
/// agents that are live in the cache but not Online in the store, whose
/// records are to be moved to Online. The store's records are unique by
/// identifier.
pub fn reconcile(cache: &mut PresenceCache, online: &Vec<AgentRecord>, now: u64) -> (promote: Vec<String>)
    requires
        old(cache).wf(),
        now + old(cache).ttl <= u64::MAX,
        distinct_ids(record_views(online@)),
    ensures
        final(cache).wf(),
        final(cache).ttl == old(cache).ttl,
        final(cache).capacity == old(cache).capacity,
        reconciled(*old(cache), record_views(online@), now, *final(cache), names(promote@)),
{
    let ghost c0 = *cache;
    let ghost ov = record_views(online@);
    let mut k: usize = 0;
    while k < online.len()
        invariant
            cache.wf(),
            cache.ttl == c0.ttl,
            cache.capacity == c0.capacity,
            k <= online@.len(),
            now + c0.ttl <= u64::MAX,
            ov == record_views(online@),
            distinct_ids(ov),
            restored_upto(c0, ov, k as int, now, *cache),
        decreases online@.len() - k,
    {
        let rec = &online[k];
        assert(ov[k as int] == (rec.id@, rec.token@));
        let ghost before = *cache;
        if !cache.is_live(&rec.id, now) {
            let _ = cache.touch(&rec.id, &rec.token, now);
        }
        proof {
            lemma_restore_step(c0, ov, k as int, now, before, *cache);
        }
        k = k + 1;
    }
    proof {
        if c0.entries.len() + ov.len() <= c0.capacity {
            assert forall|id: Seq<char>|
                #![trigger cache.session(id)]
                !(listed(ov, id) && !live(c0, id, now)) implies cache.session(id) == c0.session(id) by {
                if exists|j: int| 0 <= j < k && ov[j].0 == id && !live(c0, id, now) {
                    let j = choose|j: int| 0 <= j < k && ov[j].0 == id && !live(c0, id, now);
                    assert(0 <= j < ov.len() && ov[j].0 == id);
                }
            }
        }
    }
    promotions(cache, online, now)
}

/// Whether the eviction of a session with token `token` for cause `cause`
/// moves the stored record `stored` (its state and token) to Offline, the
/// agent's entry being `live_now` or not by then. Only an expiry does, and
/// only over a record that is still Online under the expired token, with no
/// live entry since: a later Register rotates the token, a later contact
/// makes the entry live again, and either is fresher than the expiry.
pub open spec fn offline_due(
    cause: RemovalCause,
    token: Seq<char>,
    stored: Option<(AgentState, Seq<char>)>,
    live_now: bool,
) -> bool {
    &&& cause == RemovalCause::Expired
    &&& stored is Some
    &&& stored.unwrap().0 == AgentState::Online
    &&& stored.unwrap().1 == token
    &&& !live_now
}

pub open spec fn state_and_token(stored: Option<&AgentRecord>) -> Option<(AgentState, Seq<char>)> {
    match stored {
        Some(r) => Some((r.state, r.token@)),
        None => None,
    }
}

/// The conditional write that follows an eviction: given the record as read
/// from the durable store, the record to write back (the same, Offline), or
/// none when no write is due.
pub fn offline_update(e: &Eviction, stored: Option<&AgentRecord>, cache: &PresenceCache, now: u64) -> (r:
    Option<AgentRecord>)
    requires
        cache.wf(),
    ensures
        r is Some <==> offline_due(e.cause, e.token@, state_and_token(stored), live(*cache, e.agent_id@, now)),
        r matches Some(w) ==> {
            &&& w.state == AgentState::Offline
            &&& w.id@ == stored.unwrap().id@
            &&& w.token@ == stored.unwrap().token@
            &&& w.version@ == stored.unwrap().version@
        },
{
    if e.cause != RemovalCause::Expired {
        return None;
    }
    match stored {
        Some(rec) => {
            if rec.state == AgentState::Online && rec.token == e.token && !cache.is_live(&e.agent_id, now) {
                Some(
                    AgentRecord {
                        id: rec.id.clone(),
                        token: rec.token.clone(),
                        state: AgentState::Offline,
                        version: rec.version.clone(),
                    },
                )
            } else {
                None
            }
        },
        None => None,
    }
}

/// Once the time to live of a session has passed with no touch, no token
/// validates for the agent; the sweep at that time evicts the session as
/// Expired and leaves no live entry, so the store's record, still Online
/// under that token, is due to go Offline.
pub proof fn lemma_expiry_goes_offline(
    c: PresenceCache,
    swept: PresenceCache,
    id: Seq<char>,
    token: Seq<char>,
    touched_at: u64,
    now: u64,
)
    requires
        c.session(id) == Some((token, (touched_at + c.ttl) as u64)),
        touched_at + c.ttl <= now,
        swept.session(id) is None,
    ensures
        forall|t: Seq<char>| !c.accepts(id, t, now),
        !live(swept, id, now),
        offline_due(RemovalCause::Expired, token, Some((AgentState::Online, token)), live(swept, id, now)),
{
}

/// Reconciling twice in succession, with nothing changed in between but the
/// first pass's own writes (its promoted agents now Online in the store),
/// writes nothing to the store the second time.
pub proof fn lemma_reconcile_idempotent(
    c0: PresenceCache,
    online0: Seq<(Seq<char>, Seq<char>)>,
    now: u64,
    c1: PresenceCache,
    first: Seq<Seq<char>>,
    online1: Seq<(Seq<char>, Seq<char>)>,
    c2: PresenceCache,
    second: Seq<Seq<char>>,
)
    requires
        reconciled(c0, online0, now, c1, first),
        c1.ttl == c0.ttl,
        forall|id: Seq<char>| listed(online1, id) <==> listed(online0, id) || first.contains(id),
        reconciled(c1, online1, now, c2, second),
    ensures
        second.len() == 0,
{
    if second.len() > 0 {
        let id = second[0];
        assert(second.contains(id));
        assert(live(c2, id, now) && !listed(online1, id));
        if c2.session(id) == c1.session(id) {
            assert(first.contains(id));
        } else {
            let k = choose|k: int|
                0 <= k < online1.len() && online1[k].0 == id && c2.session(id) == Some(
                    (online1[k].1, (now + c1.ttl) as u64),
                );
            assert(listed(online1, id));
        }
    }
}

} // verus!

//! The presence cache: which agents hold a live session, under which token,
//! and until when. Time is passed in explicitly (seconds on a monotonic
//! clock), so that expiry is a deterministic function of the calls made.

use vstd::prelude::*;

verus! {

/// Why an entry left the cache.
#[derive(Clone, Copy, Debug, PartialEq, Eq, Structural)]
pub enum RemovalCause {
    /// Its time to live ran out.
    Expired,
    /// A caller removed it.
    Explicit,
    /// It made room for a new entry in a full cache.
    Size,
}

/// One live session.
#[derive(Debug)]
pub struct PresenceEntry {
    pub agent_id: String,
    pub token: String,
    /// The first instant at which the session no longer counts.
    pub expires_at: u64,
}

/// An entry that left the cache, and why.
#[derive(Debug)]
pub struct Eviction {
    pub agent_id: String,
    pub token: String,
    pub cause: RemovalCause,
}

/// No two entries belong to the same agent.
pub open spec fn unique_ids(s: Seq<PresenceEntry>) -> bool {
    forall|i: int, j: int|
        0 <= i < s.len() && 0 <= j < s.len() && i != j ==> s[i].agent_id@ != s[j].agent_id@
}

pub open spec fn holds_id(s: Seq<PresenceEntry>, id: Seq<char>) -> bool {
    exists|i: int| 0 <= i < s.len() && s[i].agent_id@ == id
}

/// The token and expiry recorded for `id`, if any.
pub open spec fn lookup(s: Seq<PresenceEntry>, id: Seq<char>) -> Option<(Seq<char>, u64)> {
    if holds_id(s, id) {
        let i = choose|i: int| 0 <= i < s.len() && s[i].agent_id@ == id;
        Some((s[i].token@, s[i].expires_at))
    } else {
        None
    }
}

pub proof fn lemma_lookup_at(s: Seq<PresenceEntry>, i: int)
    requires
        unique_ids(s),
        0 <= i < s.len(),
    ensures
        holds_id(s, s[i].agent_id@),
        lookup(s, s[i].agent_id@) == Some((s[i].token@, s[i].expires_at)),
{
    assert(holds_id(s, s[i].agent_id@));
}

proof fn lemma_lookup_remove(s: Seq<PresenceEntry>, j: int)
    requires
        unique_ids(s),
        0 <= j < s.len(),
    ensures
        unique_ids(s.remove(j)),
        lookup(s.remove(j), s[j].agent_id@) is None,
        forall|id: Seq<char>| id != s[j].agent_id@ ==> lookup(s.remove(j), id) == lookup(s, id),
{
    let r = s.remove(j);
    assert forall|a: int, b: int| 0 <= a < r.len() && 0 <= b < r.len() && a != b implies r[a].agent_id@
        != r[b].agent_id@ by {
        let ia = if a < j { a } else { a + 1 };
        let ib = if b < j { b } else { b + 1 };
        assert(r[a] == s[ia] && r[b] == s[ib]);
    }
    if holds_id(r, s[j].agent_id@) {
        let k = choose|k: int| 0 <= k < r.len() && r[k].agent_id@ == s[j].agent_id@;
        let ik = if k < j { k } else { k + 1 };
        assert(r[k] == s[ik]);
    }
    assert forall|id: Seq<char>| id != s[j].agent_id@ implies lookup(r, id) == lookup(s, id) by {
        if holds_id(r, id) {
            let k = choose|k: int| 0 <= k < r.len() && r[k].agent_id@ == id;
            let ik = if k < j { k } else { k + 1 };
            assert(r[k] == s[ik]);
            lemma_lookup_at(r, k);
            lemma_lookup_at(s, ik);
        } else if holds_id(s, id) {
            let k = choose|k: int| 0 <= k < s.len() && s[k].agent_id@ == id;
            let rk = if k < j { k } else { k - 1 };
            assert(r[rk] == s[k]);
        }
    }
}

proof fn lemma_lookup_push(s: Seq<PresenceEntry>, e: PresenceEntry)
    requires
        unique_ids(s),
        !holds_id(s, e.agent_id@),
    ensures
        unique_ids(s.push(e)),
        lookup(s.push(e), e.agent_id@) == Some((e.token@, e.expires_at)),
        forall|id: Seq<char>| id != e.agent_id@ ==> lookup(s.push(e), id) == lookup(s, id),
{
    let p = s.push(e);
    assert forall|a: int, b: int| 0 <= a < p.len() && 0 <= b < p.len() && a != b implies p[a].agent_id@
        != p[b].agent_id@ by {
        if a < s.len() && b < s.len() {
            assert(p[a] == s[a] && p[b] == s[b]);
        } else if a < s.len() {
            assert(p[a] == s[a]);
        } else {
            assert(p[b] == s[b]);
        }
    }
    lemma_lookup_at(p, s.len() as int);
    assert forall|id: Seq<char>| id != e.agent_id@ implies lookup(p, id) == lookup(s, id) by {
        if holds_id(p, id) {
            let k = choose|k: int| 0 <= k < p.len() && p[k].agent_id@ == id;
            assert(p[k] == s[k]);
            lemma_lookup_at(p, k);
            lemma_lookup_at(s, k);
        } else if holds_id(s, id) {
            let k = choose|k: int| 0 <= k < s.len() && s[k].agent_id@ == id;
            assert(p[k] == s[k]);
        }
    }
}

proof fn lemma_kept(s0: Seq<PresenceEntry>, s1: Seq<PresenceEntry>, kidx: Seq<int>, now: u64)
    requires
        unique_ids(s0),
        s1.len() == kidx.len(),
        forall|k: int|
            #![trigger kidx[k]]
            0 <= k < kidx.len() ==> 0 <= kidx[k] < s0.len() && s1[k] == s0[kidx[k]] && now
                < s0[kidx[k]].expires_at,
        forall|a: int, b: int| 0 <= a < b < kidx.len() ==> kidx[a] < kidx[b],
        forall|j: int|
            0 <= j < s0.len() && now < #[trigger] s0[j].expires_at ==> exists|k: int|
                0 <= k < kidx.len() && kidx[k] == j,
    ensures
        unique_ids(s1),
        forall|id: Seq<char>|
            #![trigger lookup(s1, id)]
            if lookup(s0, id) is Some && now < lookup(s0, id).unwrap().1 {
                lookup(s1, id) == lookup(s0, id)
            } else {
                lookup(s1, id) is None
            },
{
    assert forall|a: int, b: int|
        0 <= a < s1.len() && 0 <= b < s1.len() && a != b implies s1[a].agent_id@
        != s1[b].agent_id@ by {
        assert(kidx[a] != kidx[b]) by {
            if a < b {
                assert(kidx[a] < kidx[b]);
            } else {
                assert(kidx[b] < kidx[a]);
            }
        }
        assert(s1[a] == s0[kidx[a]] && s1[b] == s0[kidx[b]]);
    }
    assert forall|id: Seq<char>|
        #![trigger lookup(s1, id)]
        if lookup(s0, id) is Some && now < lookup(s0, id).unwrap().1 {
            lookup(s1, id) == lookup(s0, id)
        } else {
            lookup(s1, id) is None
        } by {
        if holds_id(s1, id) {
            let k = choose|k: int| 0 <= k < s1.len() && s1[k].agent_id@ == id;
            assert(s1[k] == s0[kidx[k]]);
            lemma_lookup_at(s1, k);
            lemma_lookup_at(s0, kidx[k]);
        } else if holds_id(s0, id) {
            let j = choose|j: int| 0 <= j < s0.len() && s0[j].agent_id@ == id;
            lemma_lookup_at(s0, j);
            if now < s0[j].expires_at {
                let k = choose|k: int| 0 <= k < kidx.len() && kidx[k] == j;
                assert(s1[k] == s0[j]);
            }
        }
    }
}

proof fn lemma_swept(s0: Seq<PresenceEntry>, ev: Seq<Eviction>, eidx: Seq<int>, now: u64)
    requires
        unique_ids(s0),
        ev.len() == eidx.len(),
        forall|k: int|
            #![trigger eidx[k]]
            0 <= k < eidx.len() ==> {
                &&& 0 <= eidx[k] < s0.len()
                &&& ev[k].agent_id@ == s0[eidx[k]].agent_id@
                &&& ev[k].token@ == s0[eidx[k]].token@
                &&& ev[k].cause == RemovalCause::Expired
                &&& s0[eidx[k]].expires_at <= now
            },
        forall|a: int, b: int| 0 <= a < b < eidx.len() ==> eidx[a] < eidx[b],
        forall|j: int|
            0 <= j < s0.len() && #[trigger] s0[j].expires_at <= now ==> exists|k: int|
                0 <= k < eidx.len() && eidx[k] == j,
    ensures
        forall|k: int|
            #![trigger ev[k]]
            0 <= k < ev.len() ==> {
                &&& ev[k].cause == RemovalCause::Expired
                &&& lookup(s0, ev[k].agent_id@) is Some
                &&& lookup(s0, ev[k].agent_id@).unwrap().0 == ev[k].token@
                &&& lookup(s0, ev[k].agent_id@).unwrap().1 <= now
            },
        forall|id: Seq<char>|
            #![trigger lookup(s0, id)]
            lookup(s0, id) is Some && lookup(s0, id).unwrap().1 <= now ==> exists|k: int|
                0 <= k < ev.len() && ev[k].agent_id@ == id,
        forall|a: int, b: int|
            0 <= a < ev.len() && 0 <= b < ev.len() && a != b ==> ev[a].agent_id@ != ev[b].agent_id@,
{
    assert forall|k: int| #![trigger ev[k]] 0 <= k < ev.len() implies {
        &&& ev[k].cause == RemovalCause::Expired
        &&& lookup(s0, ev[k].agent_id@) is Some
        &&& lookup(s0, ev[k].agent_id@).unwrap().0 == ev[k].token@
        &&& lookup(s0, ev[k].agent_id@).unwrap().1 <= now
    } by {
        lemma_lookup_at(s0, eidx[k]);
    }
    assert forall|id: Seq<char>|
        #![trigger lookup(s0, id)]
        lookup(s0, id) is Some && lookup(s0, id).unwrap().1 <= now implies exists|k: int|
        0 <= k < ev.len() && ev[k].agent_id@ == id by {
        let j = choose|j: int| 0 <= j < s0.len() && s0[j].agent_id@ == id;
        lemma_lookup_at(s0, j);
        let k = choose|k: int| 0 <= k < eidx.len() && eidx[k] == j;
        assert(ev[k].agent_id@ == id);
    }
    assert forall|a: int, b: int|
        0 <= a < ev.len() && 0 <= b < ev.len() && a != b implies ev[a].agent_id@
        != ev[b].agent_id@ by {
        assert(eidx[a] != eidx[b]) by {
            if a < b {
                assert(eidx[a] < eidx[b]);
            } else {
                assert(eidx[b] < eidx[a]);
            }
        }
    }
}

/// A bounded map from agent to session token, each entry living for a fixed
/// time after it was last touched.
#[derive(Debug)]
pub struct PresenceCache {
    pub entries: Vec<PresenceEntry>,
    pub ttl: u64,
    pub capacity: usize,
}

impl PresenceCache {
    pub open spec fn wf(&self) -> bool {
        &&& 0 < self.capacity
        &&& self.entries.len() <= self.capacity
        &&& unique_ids(self.entries@)
    }

    /// The token and expiry instant that the cache holds for `id`.
    pub open spec fn session(&self, id: Seq<char>) -> Option<(Seq<char>, u64)> {
        lookup(self.entries@, id)
    }

    /// Whether `token` authenticates `id` at instant `now`.
    pub open spec fn accepts(&self, id: Seq<char>, token: Seq<char>, now: u64) -> bool {
        match self.session(id) {
            Some((t, expires_at)) => t == token && now < expires_at,
            None => false,
        }
    }

    /// No entry of the cache expires before `x`.
    pub open spec fn expires_first(&self, x: u64) -> bool {
        forall|id: Seq<char>| #[trigger]
            self.session(id) is Some ==> x <= self.session(id).unwrap().1
    }

    /// An empty cache whose entries live `ttl` seconds and which holds at most
    /// `capacity` of them.
    pub fn new(ttl: u64, capacity: usize) -> (r: PresenceCache)
        requires
            0 < capacity,
        ensures
            r.wf(),
            r.ttl == ttl,
            r.capacity == capacity,
            forall|id: Seq<char>| r.session(id) is None,
    {
        PresenceCache { entries: Vec::new(), ttl, capacity }
    }

    /// The number of entries, live or not yet swept.
    pub fn len(&self) -> (r: usize)
        ensures
            r == self.entries.len(),
    {
        self.entries.len()
    }

    /// The position of `agent_id`'s entry.
    fn position(&self, agent_id: &String) -> (r: Option<usize>)
        requires
            self.wf(),
        ensures
            match r {
                Some(i) => i < self.entries.len() && self.entries[i as int].agent_id@ == agent_id@,
                None => !holds_id(self.entries@, agent_id@),
            },
    {
        let mut i: usize = 0;
        while i < self.entries.len()
            invariant
                i <= self.entries.len(),
                forall|k: int| 0 <= k < i ==> self.entries[k].agent_id@ != agent_id@,
            decreases self.entries.len() - i,
        {
            if self.entries[i].agent_id == *agent_id {
                return Some(i);
            }
            i = i + 1;
        }
        None
    }

    /// The position of the entry that expires first (the first such, on a tie).
    fn earliest(&self) -> (r: usize)
        requires
            self.entries.len() > 0,
        ensures
            r < self.entries.len(),
            forall|k: int|
                0 <= k < self.entries.len() ==> self.entries[r as int].expires_at
                    <= self.entries[k].expires_at,
    {
        let mut best: usize = 0;
        let mut i: usize = 1;
        while i < self.entries.len()
            invariant
                1 <= i <= self.entries.len(),
                best < i,
                forall|k: int| 0 <= k < i ==> self.entries[best as int].expires_at
                    <= self.entries[k].expires_at,
            decreases self.entries.len() - i,
        {
            if self.entries[i].expires_at < self.entries[best].expires_at {
                best = i;
            }
            i = i + 1;
        }
        best
    }

    /// Whether `token` is the live session token of `agent_id` at `now`.
    pub fn validate(&self, agent_id: &String, token: &String, now: u64) -> (r: bool)
        requires
            self.wf(),
        ensures
            r == self.accepts(agent_id@, token@, now),
    {
        match self.position(agent_id) {
            Some(i) => {
                proof {
                    lemma_lookup_at(self.entries@, i as int);
                }
                self.entries[i].token == *token && now < self.entries[i].expires_at
            },
            None => false,
        }
    }

    /// Whether `agent_id` has an entry that is still live at `now`.
    pub fn is_live(&self, agent_id: &String, now: u64) -> (r: bool)
        requires
            self.wf(),
        ensures
            r == (self.session(agent_id@) is Some && now < self.session(agent_id@).unwrap().1),
    {
        match self.position(agent_id) {
            Some(i) => {
                proof {
                    lemma_lookup_at(self.entries@, i as int);
                }
                now < self.entries[i].expires_at
            },
            None => false,
        }
    }

    /// Inserts or refreshes the session of `agent_id` with `token`, to live
    /// until `now + ttl`. A prior token of the agent is overwritten. When the
    /// agent is new and the cache is full, the entry that expires first makes
    /// room and is returned: with cause `Expired` if its time was already up,
    /// else with cause `Size`.
    pub fn touch(&mut self, agent_id: &String, token: &String, now: u64) -> (evicted: Option<
        Eviction,
    >)
        requires
            old(self).wf(),
            now + old(self).ttl <= u64::MAX,
        ensures
            final(self).wf(),
            final(self).ttl == old(self).ttl,
            final(self).capacity == old(self).capacity,
            final(self).session(agent_id@) == Some((token@, (now + old(self).ttl) as u64)),
            final(self).entries.len() <= old(self).entries.len() + 1,
            evicted is Some <==> (old(self).session(agent_id@) is None && old(self).entries.len()
                == old(self).capacity),
            match evicted {
                None => forall|id: Seq<char>|
                    id != agent_id@ ==> final(self).session(id) == old(self).session(id),
                Some(e) => {
                    &&& e.cause == if old(self).session(e.agent_id@).unwrap().1 <= now {
                        RemovalCause::Expired
                    } else {
                        RemovalCause::Size
                    }
                    &&& e.agent_id@ != agent_id@
                    &&& old(self).session(e.agent_id@) is Some
                    &&& old(self).session(e.agent_id@).unwrap().0 == e.token@
                    &&& old(self).expires_first(old(self).session(e.agent_id@).unwrap().1)
                    &&& final(self).session(e.agent_id@) is None
                    &&& forall|id: Seq<char>|
                        id != agent_id@ && id != e.agent_id@ ==> final(self).session(id)
                            == old(self).session(id)
                },
            },
    {
        let ghost s0 = self.entries@;
        let mut evicted: Option<Eviction> = None;
        match self.position(agent_id) {
            Some(i) => {
                proof {
                    lemma_lookup_remove(self.entries@, i as int);
                }
                self.entries.remove(i);
            },
            None => {
                if self.entries.len() == self.capacity {
                    let j = self.earliest();
                    proof {
                        lemma_lookup_remove(self.entries@, j as int);
                        lemma_lookup_at(s0, j as int);
                        assert forall|id: Seq<char>| #[trigger]
                            lookup(s0, id) is Some implies s0[j as int].expires_at <= lookup(
                            s0,
                            id,
                        ).unwrap().1 by {
                            if holds_id(s0, id) {
                                let k = choose|k: int| 0 <= k < s0.len() && s0[k].agent_id@ == id;
                                lemma_lookup_at(s0, k);
                            }
                        }
                    }
                    let e = self.entries.remove(j);
                    let cause = if e.expires_at <= now {
                        RemovalCause::Expired
                    } else {
                        RemovalCause::Size
                    };
                    evicted = Some(Eviction { agent_id: e.agent_id, token: e.token, cause });
                }
            },
        }
        let ghost s1 = self.entries@;
        let entry = PresenceEntry {
            agent_id: agent_id.clone(),
            token: token.clone(),
            expires_at: now + self.ttl,
        };
        proof {
            lemma_lookup_push(s1, entry);
        }
        self.entries.push(entry);
        evicted
    }

    /// Removes the entry of `agent_id`, if there is one, and returns it with
    /// cause `Explicit`.
    pub fn remove(&mut self, agent_id: &String) -> (evicted: Option<Eviction>)
        requires
            old(self).wf(),
        ensures
            final(self).wf(),
            final(self).ttl == old(self).ttl,
            final(self).capacity == old(self).capacity,
            final(self).session(agent_id@) is None,
            forall|id: Seq<char>| id != agent_id@ ==> final(self).session(id) == old(self).session(id),
            match evicted {
                None => old(self).session(agent_id@) is None,
                Some(e) => {
                    &&& e.cause == RemovalCause::Explicit
                    &&& e.agent_id@ == agent_id@
                    &&& old(self).session(agent_id@) is Some
                    &&& old(self).session(agent_id@).unwrap().0 == e.token@
                },
            },
    {
        match self.position(agent_id) {
            Some(i) => {
                proof {
                    lemma_lookup_remove(self.entries@, i as int);
                    lemma_lookup_at(self.entries@, i as int);
                }
                let e = self.entries.remove(i);
                Some(Eviction { agent_id: e.agent_id, token: e.token, cause: RemovalCause::Explicit })
            },
            None => None,
        }
    }

    /// Sweeps out every entry whose time is up at `now` and returns them, each
    /// with cause `Expired`, in the order the cache held them.
    #[verifier::rlimit(40)]
    pub fn expire(&mut self, now: u64) -> (evicted: Vec<Eviction>)
        requires
            old(self).wf(),
        ensures
            final(self).wf(),
            final(self).ttl == old(self).ttl,
            final(self).capacity == old(self).capacity,
            forall|id: Seq<char>|
                #![trigger final(self).session(id)]
                if old(self).session(id) is Some && now < old(self).session(id).unwrap().1 {
                    final(self).session(id) == old(self).session(id)
                } else {
                    final(self).session(id) is None
                },
            forall|k: int|
                #![trigger evicted[k]]
                0 <= k < evicted.len() ==> {
                    &&& evicted[k].cause == RemovalCause::Expired
                    &&& old(self).session(evicted[k].agent_id@) is Some
                    &&& old(self).session(evicted[k].agent_id@).unwrap().0 == evicted[k].token@
                    &&& old(self).session(evicted[k].agent_id@).unwrap().1 <= now
                },
            forall|id: Seq<char>|
                #![trigger old(self).session(id)]
                old(self).session(id) is Some && old(self).session(id).unwrap().1 <= now ==> exists|
                    k: int,
                | 0 <= k < evicted.len() && evicted[k].agent_id@ == id,
            forall|a: int, b: int|
                0 <= a < evicted.len() && 0 <= b < evicted.len() && a != b
                    ==> evicted[a].agent_id@ != evicted[b].agent_id@,
    {
        let ghost s0 = self.entries@;
        let mut kept: Vec<PresenceEntry> = Vec::new();
        let mut evicted: Vec<Eviction> = Vec::new();
        let ghost mut kidx: Seq<int> = Seq::empty();
        let ghost mut eidx: Seq<int> = Seq::empty();
        let mut i: usize = 0;
        while i < self.entries.len()
            invariant
                self.entries@ == s0,
                self.wf(),
                i <= s0.len(),
                kept.len() == kidx.len(),
                evicted.len() == eidx.len(),
                kept.len() + evicted.len() == i,
                forall|k: int|
                    #![trigger kidx[k]]
                    0 <= k < kidx.len() ==> 0 <= kidx[k] < i && kept[k] == s0[kidx[k]] && now
                        < s0[kidx[k]].expires_at,
                forall|a: int, b: int| 0 <= a < b < kidx.len() ==> kidx[a] < kidx[b],
                forall|j: int|
                    0 <= j < i && now < #[trigger] s0[j].expires_at ==> exists|k: int|
                        0 <= k < kidx.len() && kidx[k] == j,
                forall|k: int|
                    #![trigger eidx[k]]
                    0 <= k < eidx.len() ==> {
                        &&& 0 <= eidx[k] < i
                        &&& evicted[k].agent_id@ == s0[eidx[k]].agent_id@
                        &&& evicted[k].token@ == s0[eidx[k]].token@
                        &&& evicted[k].cause == RemovalCause::Expired
                        &&& s0[eidx[k]].expires_at <= now
                    },
                forall|a: int, b: int| 0 <= a < b < eidx.len() ==> eidx[a] < eidx[b],
                forall|j: int|
                    0 <= j < i && #[trigger] s0[j].expires_at <= now ==> exists|k: int|
                        0 <= k < eidx.len() && eidx[k] == j,
            decreases s0.len() - i,
        {
            let e = &self.entries[i];
            assert(e == s0[i as int]);
            if now < e.expires_at {
                kept.push(
                    PresenceEntry {
                        agent_id: e.agent_id.clone(),
                        token: e.token.clone(),
                        expires_at: e.expires_at,
                    },
                );
                proof {
                    let prev = kidx;
                    kidx = kidx.push(i as int);
                    assert forall|j: int|
                        0 <= j < i + 1 && now < #[trigger] s0[j].expires_at implies exists|k: int|
                        0 <= k < kidx.len() && kidx[k] == j by {
                        if j == i {
                            assert(kidx[kidx.len() - 1] == j);
                        } else {
                            let k = choose|k: int| 0 <= k < prev.len() && prev[k] == j;
                            assert(kidx[k] == j);
                        }
                    }
                    assert forall|j: int|
                        0 <= j < i + 1 && #[trigger] s0[j].expires_at <= now implies exists|k: int|
                        0 <= k < eidx.len() && eidx[k] == j by {
                        assert(j < i);
                    }
                }
            } else {
                let ghost ev0 = evicted@;
                evicted.push(
                    Eviction {
                        agent_id: e.agent_id.clone(),
                        token: e.token.clone(),
                        cause: RemovalCause::Expired,
                    },
                );
                proof {
                    let prev = eidx;
                    eidx = eidx.push(i as int);
                    assert forall|k: int|
                        #![trigger eidx[k]]
                        0 <= k < eidx.len() implies {
                        &&& 0 <= eidx[k] < i + 1
                        &&& evicted[k].agent_id@ == s0[eidx[k]].agent_id@
                        &&& evicted[k].token@ == s0[eidx[k]].token@
                        &&& evicted[k].cause == RemovalCause::Expired
                        &&& s0[eidx[k]].expires_at <= now
                    } by {
                        if k < prev.len() {
                            assert(evicted@[k] == ev0[k]);
                            assert(prev[k] == eidx[k]);
                        }
                    }
                    assert forall|j: int|
                        0 <= j < i + 1 && #[trigger] s0[j].expires_at <= now implies exists|k: int|
                        0 <= k < eidx.len() && eidx[k] == j by {
                        if j == i {
                            assert(eidx[eidx.len() - 1] == j);
                        } else {
                            let k = choose|k: int| 0 <= k < prev.len() && prev[k] == j;
                            assert(eidx[k] == j);
                        }
                    }
                    assert forall|j: int|
                        0 <= j < i + 1 && now < #[trigger] s0[j].expires_at implies exists|k: int|
                        0 <= k < kidx.len() && kidx[k] == j by {
                        assert(j < i);
                    }
                }
            }
            i = i + 1;
        }
        proof {
            lemma_kept(s0, kept@, kidx, now);
            lemma_swept(s0, evicted@, eidx, now);
        }
        self.entries = kept;
        evicted
    }
}

} // verus!

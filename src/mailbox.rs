//! The per-agent mailbox: an ordered list of pending command payloads, kept
//! encoded under the agent's identifier in an embedded key-value store.

use vstd::prelude::*;
use crate::codec::{decode_list, encode_list, list_decoding, list_encoding, views, MAX_DECODED_LEN};

verus! {

/// What the store holds under an agent's key once `items` were appended to an
/// absent mailbox: nothing for no items, else their encoding.
pub open spec fn holding(items: Seq<Seq<u8>>) -> Option<Seq<u8>> {
    if items.len() == 0 {
        None
    } else {
        Some(list_encoding(items))
    }
}

/// `stored` is the mailbox holding `items`, small enough to decode.
pub open spec fn stores(stored: Option<Seq<u8>>, items: Seq<Seq<u8>>) -> bool {
    &&& stored == holding(items)
    &&& items.len() > 0 ==> list_encoding(items).len() <= MAX_DECODED_LEN
}

/// The commands a stored mailbox value holds: what it decodes to, and none
/// when it is absent or does not decode.
pub open spec fn stored_items(stored: Option<Seq<u8>>) -> Seq<Seq<u8>> {
    match stored {
        Some(b) => match list_decoding(b) {
            Some(items) => items,
            None => Seq::empty(),
        },
        None => Seq::empty(),
    }
}

pub open spec fn view_of(stored: Option<&[u8]>) -> Option<Seq<u8>> {
    match stored {
        Some(b) => Some(b@),
        None => None,
    }
}

/// The bytes to store after appending `cmd` to the mailbox `stored`. Bytes
/// that do not decode are a corrupted mailbox: they are dropped and the new
/// mailbox holds `cmd` alone.
pub fn append_encoded(stored: Option<&[u8]>, cmd: &[u8]) -> (r: Vec<u8>)
    ensures
        forall|items: Seq<Seq<u8>>|
            stores(view_of(stored), items) ==> r@ == list_encoding(items.push(cmd@)),
        r@ == list_encoding(stored_items(view_of(stored)).push(cmd@)),
{
    let mut items: Vec<Vec<u8>> = match stored {
        Some(b) => match decode_list(b) {
            Some(v) => v,
            None => Vec::new(),
        },
        None => Vec::new(),
    };
    assert(views(items@) =~= stored_items(view_of(stored)));
    let ghost before = views(items@);
    proof {
        assert forall|xs: Seq<Seq<u8>>| stores(view_of(stored), xs) implies before == xs by {
            if xs.len() == 0 {
                assert(before =~= xs);
            }
        }
    }
    items.push(vstd::slice::slice_to_vec(cmd));
    assert(views(items@) =~= before.push(cmd@));
    encode_list(&items)
}

/// The commands held by the mailbox `removed`, oldest first; none for an
/// absent or corrupted mailbox.
pub fn drained_commands(removed: Option<&[u8]>) -> (r: Vec<Vec<u8>>)
    ensures
        forall|items: Seq<Seq<u8>>| stores(view_of(removed), items) ==> views(r@) == items,
        views(r@) == stored_items(view_of(removed)),
{
    let r = match removed {
        Some(b) => match decode_list(b) {
            Some(v) => v,
            None => Vec::new(),
        },
        None => Vec::new(),
    };
    proof {
        assert forall|xs: Seq<Seq<u8>>| stores(view_of(removed), xs) implies views(r@) == xs by {
            if xs.len() == 0 {
                assert(views(r@) =~= xs);
            }
        }
    }
    r
}

#[verifier::external_type_specification]
#[verifier::external_body]
pub struct ExDb(sled::Db);

#[verifier::external_type_specification]
#[verifier::external_body]
pub struct ExSledError(sled::Error);

/// The bytes of an optional stored value.
pub open spec fn bytes_of(o: Option<Vec<u8>>) -> Option<Seq<u8>> {
    match o {
        Some(b) => Some(b@),
        None => None,
    }
}

/// `out` is what draining the removed value `removed` gives: the commands it
/// decodes to, none when it is absent or corrupted; in particular the very
/// commands a well-formed mailbox holds.
pub open spec fn drained_as(removed: Option<Seq<u8>>, out: Seq<Seq<u8>>) -> bool {
    &&& out == stored_items(removed)
    &&& forall|items: Seq<Seq<u8>>| stores(removed, items) ==> out == items
}

/// `written` is the encoding of some mailbox's commands followed by `cmd`.
pub open spec fn is_append_of(written: Seq<u8>, cmd: Seq<u8>) -> bool {
    exists|prior: Option<Seq<u8>>| written == list_encoding(stored_items(prior).push(cmd))
}

/// The (key, command) pairs of an append log.
pub open spec fn appended_pairs(log: Seq<(Seq<char>, Seq<u8>, Option<Seq<u8>>)>) -> Seq<
    (Seq<char>, Seq<u8>),
> {
    log.map_values(|e: (Seq<char>, Seq<u8>, Option<Seq<u8>>)| (e.0, e.1))
}

/// Relies on `sled::Tree::update_and_fetch`: it applies the closure to the
/// current value under `key`, stores what the closure returns in one atomic
/// step (retrying when another writer got in between), and returns that new
/// value. The closure always returns a value.
#[verifier::external_body]
fn store_append(store: &mut MailboxStore, key: &str, cmd: &[u8]) -> (r: Result<Option<Vec<u8>>, sled::Error>)
    ensures
        final(store).handle() == old(store).handle(),
        final(store).drained_log() == old(store).drained_log(),
        final(store).appended_log() == old(store).appended_log().push(
            (
                key@,
                cmd@,
                match r {
                    Ok(o) => bytes_of(o),
                    Err(_) => None,
                },
            ),
        ),
        r matches Ok(o) ==> o is Some,
        r matches Ok(Some(b)) ==> is_append_of(b@, cmd@),
{
    store.db.update_and_fetch(key.as_bytes(), |old: Option<&[u8]>| Some(append_encoded(old, cmd)))
        .map(|o| o.map(|v| v.to_vec()))
}

/// Relies on `sled::Tree::remove`: it removes the value under `key` in one
/// atomic step and returns it, if there was one.
#[verifier::external_body]
fn store_remove(store: &mut MailboxStore, key: &str) -> (r: Result<Option<Vec<u8>>, sled::Error>)
    ensures
        final(store).handle() == old(store).handle(),
        final(store).appended_log() == old(store).appended_log(),
        r matches Ok(o) ==> final(store).drained_log() == old(store).drained_log().push(
            (key@, bytes_of(o)),
        ),
        r is Err ==> final(store).drained_log() == old(store).drained_log(),
{
    store.db.remove(key.as_bytes()).map(|o| o.map(|v| v.to_vec()))
}

/// A failure of the store underneath a mailbox.
#[derive(Clone, Copy, Debug, PartialEq, Eq, Structural)]
pub enum MailboxError {
    /// The store could not be read or written; the operation may be retried.
    Unavailable,
}

/// Mailboxes of all agents, one key per agent, in an embedded store.
pub struct MailboxStore {
    pub db: sled::Db,
    appended: Ghost<Seq<(Seq<char>, Seq<u8>, Option<Seq<u8>>)>>,
    drained: Ghost<Seq<(Seq<char>, Option<Seq<u8>>)>>,
}

impl MailboxStore {
    /// The store the mailboxes live in.
    pub closed spec fn handle(&self) -> sled::Db {
        self.db
    }

    /// Every append handed to the store, in order: the key, the command, and
    /// the value the store then held under the key, when it answered.
    pub closed spec fn appended_log(&self) -> Seq<(Seq<char>, Seq<u8>, Option<Seq<u8>>)> {
        self.appended@
    }

    /// Every removal the store carried out, in order: the key and the value
    /// it removed.
    pub closed spec fn drained_log(&self) -> Seq<(Seq<char>, Option<Seq<u8>>)> {
        self.drained@
    }

    pub fn new(db: sled::Db) -> (r: MailboxStore)
        ensures
            r.handle() == db,
            r.appended_log().len() == 0,
            r.drained_log().len() == 0,
    {
        MailboxStore { db, appended: Ghost(Seq::empty()), drained: Ghost(Seq::empty()) }
    }

    /// Appends `cmd` to the mailbox of `agent_id` in one atomic
    /// read-modify-write, so that no concurrent append or drain on the same
    /// key is lost. On success the store holds the mailbox it held (none when
    /// absent or corrupted) followed by `cmd`.
    pub fn append(&mut self, agent_id: &str, cmd: &[u8]) -> (r: Result<(), MailboxError>)
        ensures
            final(self).handle() == old(self).handle(),
            final(self).drained_log() == old(self).drained_log(),
            final(self).appended_log().len() == old(self).appended_log().len() + 1,
            final(self).appended_log().drop_last() == old(self).appended_log(),
            final(self).appended_log().last().0 == agent_id@,
            final(self).appended_log().last().1 == cmd@,
            r is Ok ==> final(self).appended_log().last().2 is Some && is_append_of(
                final(self).appended_log().last().2.unwrap(),
                cmd@,
            ),
            r is Err ==> r == Err::<(), MailboxError>(MailboxError::Unavailable),
    {
        let r = store_append(self, agent_id, cmd);
        assert(self.appended_log().drop_last() =~= old(self).appended_log());
        match r {
            Ok(_) => Ok(()),
            Err(_) => Err(MailboxError::Unavailable),
        }
    }

    /// Removes the mailbox of `agent_id` in one atomic step and returns its
    /// commands, oldest first, as `drained_commands` reads the removed value:
    /// none when it was absent or corrupted.
    pub fn drain(&mut self, agent_id: &str) -> (r: Result<Vec<Vec<u8>>, MailboxError>)
        ensures
            final(self).handle() == old(self).handle(),
            final(self).appended_log() == old(self).appended_log(),
            r matches Ok(cmds) ==> {
                &&& final(self).drained_log().len() == old(self).drained_log().len() + 1
                &&& final(self).drained_log().drop_last() == old(self).drained_log()
                &&& final(self).drained_log().last().0 == agent_id@
                &&& drained_as(final(self).drained_log().last().1, views(cmds@))
            },
            r is Err ==> r == Err::<Vec<Vec<u8>>, MailboxError>(MailboxError::Unavailable)
                && final(self).drained_log() == old(self).drained_log(),
    {
        match store_remove(self, agent_id) {
            Ok(removed) => {
                assert(self.drained_log().drop_last() =~= old(self).drained_log());
                let cmds = match removed {
                    Some(b) => drained_commands(Some(b.as_slice())),
                    None => drained_commands(None),
                };
                Ok(cmds)
            },
            Err(_) => Err(MailboxError::Unavailable),
        }
    }
}

/// Appending C1..Cn one at a time to an absent mailbox leaves it holding
/// exactly C1..Cn in order, so draining it returns them; the drain leaves the
/// key absent, and draining an absent key returns nothing.
pub proof fn lemma_append_drain_round_trip(cmds: Seq<Seq<u8>>)
    requires
        forall|k: int| 0 < k <= cmds.len() ==> list_encoding(cmds.subrange(0, k)).len() <= MAX_DECODED_LEN,
    ensures
        stores(None, Seq::empty()),
        forall|k: int|
            0 <= k < cmds.len() ==> stores(holding(cmds.subrange(0, k)), cmds.subrange(0, k))
                && #[trigger] cmds.subrange(0, k).push(cmds[k]) == cmds.subrange(0, k + 1),
        stores(holding(cmds), cmds),
        forall|out: Seq<Seq<u8>>| drained_as(holding(cmds), out) ==> out == cmds,
        forall|out: Seq<Seq<u8>>| drained_as(None, out) ==> out.len() == 0,
{
    assert forall|k: int| 0 <= k < cmds.len() implies stores(holding(cmds.subrange(0, k)), cmds.subrange(0, k))
        && #[trigger] cmds.subrange(0, k).push(cmds[k]) == cmds.subrange(0, k + 1) by {
        assert(cmds.subrange(0, k).push(cmds[k]) =~= cmds.subrange(0, k + 1));
    }
    if cmds.len() > 0 {
        assert(cmds.subrange(0, cmds.len() as int) =~= cmds);
    }
}

/// Appends made concurrently take effect one at a time, in some order. Once
/// all N have, a drain of the mailbox they built returns every one of them,
/// N in all, whatever that order was.
pub proof fn lemma_concurrent_appends_all_drained(
    cmds: Seq<Seq<u8>>,
    order: Seq<Seq<u8>>,
    out: Seq<Seq<u8>>,
)
    requires
        order.to_multiset() == cmds.to_multiset(),
        forall|k: int| 0 < k <= order.len() ==> list_encoding(order.subrange(0, k)).len() <= MAX_DECODED_LEN,
        drained_as(holding(order), out),
    ensures
        out.len() == cmds.len(),
        out.to_multiset() == cmds.to_multiset(),
{
    lemma_append_drain_round_trip(order);
    assert(out == order);
    cmds.to_multiset_ensures();
    order.to_multiset_ensures();
}

} // verus!

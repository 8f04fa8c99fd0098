//! The relay: a point-to-point stream that carries (agent, command) frames
//! from the process that produces commands to the process that delivers them.
//! The sending side is a state machine driven by the events of its link; the
//! receiving side cuts the byte stream into frames and appends each to its own
//! mailbox store.

use vstd::prelude::*;
use crate::codec::{decode_frame, encode_frame, frame_decoding, frame_encoding, MAX_DECODED_LEN};
use crate::mailbox::{appended_pairs, MailboxStore};
use crate::reconcile::names;

verus! {

/// Seconds between two attempts to dial the receiving side.
pub const REDIAL_BACKOFF_SECS: u64 = 3;

/// The largest frame, in bytes: the largest that decodes within the decoding
/// limit. The receiving side holding more than this without completing a
/// frame means the stream is corrupted.
pub const MAX_FRAME_LEN: usize = MAX_DECODED_LEN;

/// One command for one agent, as the relay carries it.
#[derive(Debug)]
pub struct Frame {
    pub agent_id: String,
    pub payload: Vec<u8>,
}

impl Frame {
    pub open spec fn view(&self) -> (Seq<char>, Seq<u8>) {
        (self.agent_id@, self.payload@)
    }
}

pub open spec fn frame_views(fs: Seq<Frame>) -> Seq<(Seq<char>, Seq<u8>)> {
    fs.map_values(|f: Frame| f.view())
}

/// The bytes of the frames `fs`, one after the other.
pub open spec fn stream_of(fs: Seq<(Seq<char>, Seq<u8>)>) -> Seq<u8>
    decreases fs.len(),
{
    if fs.len() == 0 {
        Seq::empty()
    } else {
        frame_encoding(fs[0].0, fs[0].1) + stream_of(fs.drop_first())
    }
}

/// Every frame of `fs` is small enough to decode.
pub open spec fn decodable(fs: Seq<(Seq<char>, Seq<u8>)>) -> bool {
    forall|k: int| 0 <= k < fs.len() ==> #[trigger] frame_encoding(fs[k].0, fs[k].1).len() <= MAX_DECODED_LEN
}

/// The bytes of one frame.
pub fn encode(agent_id: &str, payload: &[u8]) -> (r: Vec<u8>)
    ensures
        r@ == frame_encoding(agent_id@, payload@),
{
    encode_frame(agent_id, payload)
}

proof fn lemma_stream_split(fs: Seq<(Seq<char>, Seq<u8>)>, k: int)
    requires
        0 <= k < fs.len(),
    ensures
        stream_of(fs.subrange(k, fs.len() as int)) == frame_encoding(fs[k].0, fs[k].1) + stream_of(
            fs.subrange(k + 1, fs.len() as int),
        ),
{
    assert(fs.subrange(k, fs.len() as int).drop_first() =~= fs.subrange(k + 1, fs.len() as int));
}

/// `buf` starts with the run of frames `fs`, each small enough to decode, and
/// `rest` follows it.
pub open spec fn starts_with_frames(
    buf: Seq<u8>,
    fs: Seq<(Seq<char>, Seq<u8>)>,
    rest: Seq<u8>,
) -> bool {
    buf == stream_of(fs) + rest && decodable(fs)
}

/// Cuts as many whole frames as it can from the front of `buf`, and says how
/// many bytes they took. Every whole frame at the front comes out, in order,
/// whatever follows it; a buffer that is exactly a run of frames gives all of
/// them back and is consumed whole; one that does not start with a frame
/// gives none and is not consumed.
pub fn take_frames(buf: &[u8]) -> (r: (Vec<Frame>, usize))
    ensures
        r.1 <= buf@.len(),
        frame_decoding(buf@) is None ==> r.0@.len() == 0 && r.1 == 0,
        forall|fs: Seq<(Seq<char>, Seq<u8>)>, rest: Seq<u8>|
            #![trigger starts_with_frames(buf@, fs, rest)]
            starts_with_frames(buf@, fs, rest) ==> {
                &&& fs.len() <= r.0@.len()
                &&& frame_views(r.0@).subrange(0, fs.len() as int) == fs
                &&& rest.len() == 0 ==> frame_views(r.0@) == fs && r.1 == buf@.len()
            },
{
    let mut frames: Vec<Frame> = Vec::new();
    let mut pos: usize = 0;
    proof {
        assert forall|fs: Seq<(Seq<char>, Seq<u8>)>, rest: Seq<u8>|
            #![trigger starts_with_frames(buf@, fs, rest)]
            starts_with_frames(buf@, fs, rest) implies frame_views(frames@) == fs.subrange(0, 0)
            && buf@.subrange(0, buf@.len() as int) == stream_of(fs.subrange(0, fs.len() as int))
            + rest by {
            assert(frame_views(frames@) =~= fs.subrange(0, 0));
            assert(fs.subrange(0, fs.len() as int) =~= fs);
            assert(buf@.subrange(0, buf@.len() as int) =~= buf@);
        }
    }
    loop
        invariant
            pos <= buf@.len(),
            frame_decoding(buf@) is None ==> frames@.len() == 0 && pos == 0,
            forall|fs: Seq<(Seq<char>, Seq<u8>)>, rest: Seq<u8>|
                #![trigger starts_with_frames(buf@, fs, rest)]
                starts_with_frames(buf@, fs, rest) ==> if frames@.len() <= fs.len() {
                    &&& frame_views(frames@) == fs.subrange(0, frames@.len() as int)
                    &&& buf@.subrange(pos as int, buf@.len() as int) == stream_of(
                        fs.subrange(frames@.len() as int, fs.len() as int),
                    ) + rest
                } else {
                    &&& frame_views(frames@).subrange(0, fs.len() as int) == fs
                    &&& rest.len() > 0
                },
        ensures
            pos <= buf@.len(),
            frame_decoding(buf@) is None ==> frames@.len() == 0 && pos == 0,
            forall|fs: Seq<(Seq<char>, Seq<u8>)>, rest: Seq<u8>|
                #![trigger starts_with_frames(buf@, fs, rest)]
                starts_with_frames(buf@, fs, rest) ==> {
                    &&& fs.len() <= frames@.len()
                    &&& frame_views(frames@).subrange(0, fs.len() as int) == fs
                    &&& rest.len() == 0 ==> frame_views(frames@) == fs && pos == buf@.len()
                },
        decreases buf@.len() - pos,
    {
        let rest_bytes = vstd::slice::slice_subrange(buf, pos, buf.len());
        match decode_frame(rest_bytes) {
            Some((agent_id, payload, n)) => {
                if pos == 0 {
                    assert(rest_bytes@ =~= buf@);
                }
                let ghost before = frames@;
                let ghost f = (agent_id@, payload@);
                frames.push(Frame { agent_id, payload });
                proof {
                    assert(frame_views(frames@) =~= frame_views(before).push(f));
                    assert forall|fs: Seq<(Seq<char>, Seq<u8>)>, rest: Seq<u8>|
                        #![trigger starts_with_frames(buf@, fs, rest)]
                        starts_with_frames(buf@, fs, rest) implies if frames@.len() <= fs.len() {
                        &&& frame_views(frames@) == fs.subrange(0, frames@.len() as int)
                        &&& buf@.subrange(pos + n, buf@.len() as int) == stream_of(
                            fs.subrange(frames@.len() as int, fs.len() as int),
                        ) + rest
                    } else {
                        &&& frame_views(frames@).subrange(0, fs.len() as int) == fs
                        &&& rest.len() > 0
                    } by {
                        let k = before.len() as int;
                        if k < fs.len() {
                            lemma_stream_split(fs, k);
                            let enc = frame_encoding(fs[k].0, fs[k].1);
                            let tail = stream_of(fs.subrange(k + 1, fs.len() as int)) + rest;
                            assert(rest_bytes@ =~= enc + tail);
                            assert(enc.len() <= MAX_DECODED_LEN);
                            assert(rest_bytes@.subrange(n as int, rest_bytes@.len() as int) =~= tail);
                            assert(buf@.subrange(pos + n, buf@.len() as int) =~= rest_bytes@.subrange(
                                n as int,
                                rest_bytes@.len() as int,
                            ));
                            assert(frame_views(frames@) =~= fs.subrange(0, k + 1));
                        } else if k == fs.len() {
                            assert(fs.subrange(k, fs.len() as int) =~= Seq::<(Seq<char>, Seq<u8>)>::empty());
                            assert(stream_of(fs.subrange(k, fs.len() as int)) == Seq::<u8>::empty());
                            assert(rest_bytes@ =~= rest);
                            assert(frame_views(frames@).subrange(0, fs.len() as int) =~= frame_views(before));
                            assert(fs.subrange(0, k) =~= fs);
                        } else {
                            assert(frame_views(frames@).subrange(0, fs.len() as int) =~= frame_views(
                                before,
                            ).subrange(0, fs.len() as int));
                        }
                    }
                }
                pos = pos + n;
            },
            None => {
                proof {
                    assert forall|fs: Seq<(Seq<char>, Seq<u8>)>, rest: Seq<u8>|
                        #![trigger starts_with_frames(buf@, fs, rest)]
                        starts_with_frames(buf@, fs, rest) implies {
                        &&& fs.len() <= frames@.len()
                        &&& frame_views(frames@).subrange(0, fs.len() as int) == fs
                        &&& rest.len() == 0 ==> frame_views(frames@) == fs && pos == buf@.len()
                    } by {
                        let k = frames@.len() as int;
                        if k < fs.len() {
                            lemma_stream_split(fs, k);
                            let enc = frame_encoding(fs[k].0, fs[k].1);
                            let tail = stream_of(fs.subrange(k + 1, fs.len() as int)) + rest;
                            assert(rest_bytes@ =~= enc + tail);
                            assert(false);
                        }
                        if k == fs.len() {
                            assert(fs.subrange(k, fs.len() as int) =~= Seq::<(Seq<char>, Seq<u8>)>::empty());
                            assert(stream_of(fs.subrange(k, fs.len() as int)) == Seq::<u8>::empty());
                            assert(fs.subrange(0, k) =~= fs);
                            assert(frame_views(frames@).subrange(0, k) =~= frame_views(frames@));
                            assert(buf@.subrange(pos as int, buf@.len() as int) =~= rest);
                        }
                    }
                }
                break;
            },
        }
    }
    (frames, pos)
}

proof fn lemma_stream_push(fs: Seq<(Seq<char>, Seq<u8>)>, f: (Seq<char>, Seq<u8>))
    ensures
        stream_of(fs.push(f)) == stream_of(fs) + frame_encoding(f.0, f.1),
    decreases fs.len(),
{
    let p = fs.push(f);
    if fs.len() == 0 {
        assert(p.drop_first() =~= Seq::<(Seq<char>, Seq<u8>)>::empty());
        assert(stream_of(p.drop_first()) == Seq::<u8>::empty());
        assert(p[0] == f);
        assert(stream_of(p) =~= stream_of(fs) + frame_encoding(f.0, f.1));
    } else {
        lemma_stream_push(fs.drop_first(), f);
        assert(p.drop_first() =~= fs.drop_first().push(f));
        assert(p[0] == fs[0]);
        let head = frame_encoding(fs[0].0, fs[0].1);
        assert(stream_of(p) == head + stream_of(p.drop_first()));
        assert(stream_of(fs) == head + stream_of(fs.drop_first()));
        assert(stream_of(p) =~= stream_of(fs) + frame_encoding(f.0, f.1));
    }
}

/// The bytes of the frames `frames`, one after the other.
pub fn encode_all(frames: &Vec<Frame>) -> (r: Vec<u8>)
    ensures
        r@ == stream_of(frame_views(frames@)),
{
    let mut out: Vec<u8> = Vec::new();
    let mut i: usize = 0;
    while i < frames.len()
        invariant
            i <= frames@.len(),
            out@ == stream_of(frame_views(frames@.subrange(0, i as int))),
        decreases frames@.len() - i,
    {
        let mut bytes = encode(frames[i].agent_id.as_str(), frames[i].payload.as_slice());
        proof {
            lemma_stream_push(frame_views(frames@.subrange(0, i as int)), frames@[i as int].view());
            assert(frame_views(frames@.subrange(0, i as int)).push(frames@[i as int].view())
                =~= frame_views(frames@.subrange(0, i + 1)));
        }
        out.append(&mut bytes);
        i = i + 1;
    }
    assert(frames@.subrange(0, i as int) =~= frames@);
    out
}

/// Bytes received on the relay stream that do not yet make a whole frame.
pub struct FrameBuffer {
    pub pending: Vec<u8>,
}

impl FrameBuffer {
    pub fn new() -> (r: FrameBuffer)
        ensures
            r.pending@ == Seq::<u8>::empty(),
    {
        FrameBuffer { pending: Vec::new() }
    }

    /// Adds a chunk read from the stream and takes every whole frame off the
    /// front of what is pending, in order; what follows them stays pending.
    /// When what was pending and the chunk make up exactly a run of frames,
    /// all of them come out and nothing stays; when they do not start with a
    /// frame, none comes out and all of it stays pending.
    pub fn receive(&mut self, chunk: &[u8]) -> (r: Vec<Frame>)
        ensures
            exists|n: int|
                0 <= n <= (old(self).pending@ + chunk@).len() && final(self).pending@ == (old(
                    self,
                ).pending@ + chunk@).subrange(n, (old(self).pending@ + chunk@).len() as int),
            forall|fs: Seq<(Seq<char>, Seq<u8>)>, rest: Seq<u8>|
                #![trigger starts_with_frames(old(self).pending@ + chunk@, fs, rest)]
                starts_with_frames(old(self).pending@ + chunk@, fs, rest) ==> {
                    &&& fs.len() <= r@.len()
                    &&& frame_views(r@).subrange(0, fs.len() as int) == fs
                    &&& rest.len() == 0 ==> frame_views(r@) == fs && final(self).pending@.len() == 0
                },
            frame_decoding(old(self).pending@ + chunk@) is None ==> r@.len() == 0
                && final(self).pending@ == old(self).pending@ + chunk@,
    {
        let mut i: usize = 0;
        while i < chunk.len()
            invariant
                i <= chunk@.len(),
                self.pending@ == old(self).pending@ + chunk@.subrange(0, i as int),
            decreases chunk@.len() - i,
        {
            self.pending.push(chunk[i]);
            assert(chunk@.subrange(0, i + 1) =~= chunk@.subrange(0, i as int).push(chunk@[i as int]));
            i = i + 1;
        }
        assert(chunk@.subrange(0, i as int) =~= chunk@);
        let ghost all = self.pending@;
        let (frames, consumed) = take_frames(self.pending.as_slice());
        proof {
            assert forall|fs: Seq<(Seq<char>, Seq<u8>)>, rest: Seq<u8>|
                #![trigger starts_with_frames(old(self).pending@ + chunk@, fs, rest)]
                starts_with_frames(old(self).pending@ + chunk@, fs, rest) implies starts_with_frames(
                all,
                fs,
                rest,
            ) by {
                assert(all =~= old(self).pending@ + chunk@);
            }
            assert(all =~= old(self).pending@ + chunk@);
        }
        let rest = self.pending.split_off(consumed);
        self.pending = rest;
        assert(consumed == 0 ==> self.pending@ =~= all);
        frames
    }

    /// Whether the pending bytes outgrew any frame, which means the stream is
    /// corrupted and the connection is to be dropped.
    pub fn is_corrupted(&self) -> (r: bool)
        ensures
            r == (self.pending@.len() > MAX_FRAME_LEN),
    {
        self.pending.len() > MAX_FRAME_LEN
    }
}

/// Appends each frame to the mailbox of its agent, in order. A frame that the
/// store refuses is skipped; the count of those is returned.
pub fn deliver(store: &mut MailboxStore, frames: &Vec<Frame>) -> (failed: usize)
    ensures
        final(store).handle() == old(store).handle(),
        final(store).drained_log() == old(store).drained_log(),
        appended_pairs(final(store).appended_log()) == appended_pairs(old(store).appended_log())
            + frame_views(frames@),
        failed <= frames@.len(),
{
    let mut failed: usize = 0;
    let mut i: usize = 0;
    while i < frames.len()
        invariant
            i <= frames@.len(),
            failed <= i,
            store.handle() == old(store).handle(),
            store.drained_log() == old(store).drained_log(),
            appended_pairs(store.appended_log()) == appended_pairs(old(store).appended_log())
                + frame_views(frames@.subrange(0, i as int)),
        decreases frames@.len() - i,
    {
        let ghost log0 = store.appended_log();
        if store.append(frames[i].agent_id.as_str(), frames[i].payload.as_slice()).is_err() {
            failed = failed + 1;
        }
        proof {
            let log1 = store.appended_log();
            assert(log1 =~= log0.push(log1.last()));
            assert(appended_pairs(log1) =~= appended_pairs(log0).push(frames@[i as int].view()));
        }
        assert(frame_views(frames@.subrange(0, i + 1)) =~= frame_views(frames@.subrange(0, i as int)).push(
            frames@[i as int].view(),
        ));
        i = i + 1;
    }
    assert(frames@.subrange(0, i as int) =~= frames@);
    failed
}

/// The state of the sending side's connection.
#[derive(Clone, Copy, Debug, PartialEq, Eq, Structural)]
pub enum Link {
    /// No connection; a dial is due after the backoff.
    Down,
    /// A dial is under way.
    Dialing,
    /// Connected.
    Up,
}

/// What happened on the sending side.
#[derive(Debug)]
pub enum RelayEvent {
    /// A command was produced for an agent.
    Produced(Frame),
    DialSucceeded,
    DialFailed,
    /// The backoff after a failure has run out.
    BackoffElapsed,
    /// The last write reached the stream whole.
    WriteSucceeded,
    /// The last write failed; the connection is gone.
    WriteFailed,
}

/// What the sending side is to do next.
#[derive(Debug)]
pub enum RelayAction {
    Idle,
    Dial,
    /// Wait this many seconds, then report `BackoffElapsed`.
    WaitThenDial(u64),
    /// Write these bytes to the stream, then report how it went.
    Write(Vec<u8>),
    /// The produced command does not fit in one frame and was not queued.
    Refused,
}

pub enum EventView {
    Produced((Seq<char>, Seq<u8>)),
    DialSucceeded,
    DialFailed,
    BackoffElapsed,
    WriteSucceeded,
    WriteFailed,
}

pub enum ActionView {
    Idle,
    Dial,
    WaitThenDial(u64),
    Write(Seq<u8>),
    Refused,
}

pub struct SenderView {
    pub link: Link,
    /// Frames produced and not yet known to be written, oldest first.
    pub outbox: Seq<(Seq<char>, Seq<u8>)>,
    /// How many frames at the front of the outbox the current write carries.
    pub in_flight: nat,
}

impl RelayEvent {
    pub open spec fn view(&self) -> EventView {
        match self {
            RelayEvent::Produced(f) => EventView::Produced(f.view()),
            RelayEvent::DialSucceeded => EventView::DialSucceeded,
            RelayEvent::DialFailed => EventView::DialFailed,
            RelayEvent::BackoffElapsed => EventView::BackoffElapsed,
            RelayEvent::WriteSucceeded => EventView::WriteSucceeded,
            RelayEvent::WriteFailed => EventView::WriteFailed,
        }
    }
}

impl RelayAction {
    pub open spec fn view(&self) -> ActionView {
        match self {
            RelayAction::Idle => ActionView::Idle,
            RelayAction::Dial => ActionView::Dial,
            RelayAction::WaitThenDial(secs) => ActionView::WaitThenDial(*secs),
            RelayAction::Write(bytes) => ActionView::Write(bytes@),
            RelayAction::Refused => ActionView::Refused,
        }
    }
}

/// Starts a write of the whole outbox when connected and no write is under way.
pub open spec fn flush(s: SenderView) -> (SenderView, ActionView) {
    if s.link == Link::Up && s.in_flight == 0 && s.outbox.len() > 0 {
        (SenderView { in_flight: s.outbox.len(), ..s }, ActionView::Write(stream_of(s.outbox)))
    } else {
        (s, ActionView::Idle)
    }
}

/// The sending side's next state and action after event `e`.
pub open spec fn relay_next(s: SenderView, e: EventView) -> (SenderView, ActionView) {
    match e {
        EventView::Produced(f) => if frame_encoding(f.0, f.1).len() <= MAX_FRAME_LEN {
            flush(SenderView { outbox: s.outbox.push(f), ..s })
        } else {
            (s, ActionView::Refused)
        },
        EventView::DialSucceeded => flush(SenderView { link: Link::Up, ..s }),
        EventView::DialFailed => (
            SenderView { link: Link::Down, in_flight: 0, ..s },
            ActionView::WaitThenDial(REDIAL_BACKOFF_SECS),
        ),
        EventView::BackoffElapsed => if s.link == Link::Down {
            (SenderView { link: Link::Dialing, ..s }, ActionView::Dial)
        } else {
            (s, ActionView::Idle)
        },
        EventView::WriteSucceeded => flush(
            SenderView {
                outbox: s.outbox.subrange(s.in_flight as int, s.outbox.len() as int),
                in_flight: 0,
                ..s
            },
        ),
        EventView::WriteFailed => (
            SenderView { link: Link::Down, in_flight: 0, ..s },
            ActionView::WaitThenDial(REDIAL_BACKOFF_SECS),
        ),
    }
}

pub open spec fn sender_wf(s: SenderView) -> bool {
    &&& s.in_flight <= s.outbox.len()
    &&& s.in_flight > 0 ==> s.link == Link::Up
}

/// The sending side of the relay: it holds every produced frame until a
/// write that carried it has succeeded, and redials on a fixed backoff for as
/// long as the link is down.
pub struct RelaySender {
    pub link: Link,
    pub outbox: Vec<Frame>,
    pub in_flight: usize,
}

impl RelaySender {
    pub open spec fn view(&self) -> SenderView {
        SenderView { link: self.link, outbox: frame_views(self.outbox@), in_flight: self.in_flight as nat }
    }

    pub open spec fn wf(&self) -> bool {
        sender_wf(self.view())
    }

    /// A sender with nothing to send, whose first dial is under way.
    pub fn new() -> (r: RelaySender)
        ensures
            r.wf(),
            r.view() == (SenderView { link: Link::Dialing, outbox: Seq::empty(), in_flight: 0 }),
    {
        let r = RelaySender { link: Link::Dialing, outbox: Vec::new(), in_flight: 0 };
        assert(frame_views(r.outbox@) =~= Seq::empty());
        r
    }

    fn flush(&mut self) -> (a: RelayAction)
        requires
            old(self).wf(),
        ensures
            final(self).wf(),
            (final(self).view(), a.view()) == flush(old(self).view()),
    {
        if self.link == Link::Up && self.in_flight == 0 && self.outbox.len() > 0 {
            self.in_flight = self.outbox.len();
            RelayAction::Write(encode_all(&self.outbox))
        } else {
            RelayAction::Idle
        }
    }

    /// The agents, each once, with a frame in the write under way: once that
    /// write has succeeded their commands are held by the receiving side, and
    /// the sending side's own copies of them may go.
    pub fn written_agents(&self) -> (r: Vec<String>)
        requires
            self.wf(),
        ensures
            forall|id: Seq<char>|
                #![trigger names(r@).contains(id)]
                names(r@).contains(id) <==> exists|k: int|
                    0 <= k < self.in_flight && self.outbox@[k].agent_id@ == id,
            forall|a: int, b: int|
                0 <= a < r@.len() && 0 <= b < r@.len() && a != b ==> r@[a]@ != r@[b]@,
    {
        let mut out: Vec<String> = Vec::new();
        let mut k: usize = 0;
        while k < self.in_flight
            invariant
                self.wf(),
                k <= self.in_flight,
                forall|id: Seq<char>|
                    #![trigger names(out@).contains(id)]
                    names(out@).contains(id) <==> exists|j: int|
                        0 <= j < k && self.outbox@[j].agent_id@ == id,
                forall|a: int, b: int|
                    0 <= a < out@.len() && 0 <= b < out@.len() && a != b ==> out@[a]@ != out@[b]@,
            decreases self.in_flight - k,
        {
            let id = &self.outbox[k].agent_id;
            let mut seen = false;
            let mut j: usize = 0;
            while j < out.len()
                invariant
                    j <= out@.len(),
                    seen == exists|m: int| 0 <= m < j && out@[m]@ == id@,
                decreases out@.len() - j,
            {
                if out[j] == *id {
                    seen = true;
                }
                j = j + 1;
            }
            let ghost before = out@;
            if !seen {
                out.push(id.clone());
            }
            proof {
                assert forall|x: Seq<char>|
                    #![trigger names(out@).contains(x)]
                    names(out@).contains(x) <==> exists|j: int|
                        0 <= j < k + 1 && self.outbox@[j].agent_id@ == x by {
                    if names(out@).contains(x) {
                        let m = choose|m: int| 0 <= m < names(out@).len() && names(out@)[m] == x;
                        if m < before.len() {
                            assert(names(before)[m] == x);
                            assert(names(before).contains(x));
                            let j = choose|j: int| 0 <= j < k && self.outbox@[j].agent_id@ == x;
                            assert(0 <= j < k + 1);
                        } else {
                            assert(0 <= k < k + 1 && self.outbox@[k as int].agent_id@ == x);
                        }
                    }
                    if exists|j: int| 0 <= j < k + 1 && self.outbox@[j].agent_id@ == x {
                        let j = choose|j: int| 0 <= j < k + 1 && self.outbox@[j].agent_id@ == x;
                        if j < k {
                            assert(names(before).contains(x));
                            let m = choose|m: int| 0 <= m < names(before).len() && names(before)[m] == x;
                            assert(names(out@)[m] == x);
                        } else if seen {
                            let m = choose|m: int| 0 <= m < before.len() && before[m]@ == id@;
                            assert(names(out@)[m] == x);
                        } else {
                            assert(names(out@)[before.len() as int] == x);
                        }
                    }
                }
            }
            k = k + 1;
        }
        out
    }

    /// Takes in one event and says what to do next.
    pub fn step(&mut self, e: RelayEvent) -> (a: RelayAction)
        requires
            old(self).wf(),
        ensures
            final(self).wf(),
            (final(self).view(), a.view()) == relay_next(old(self).view(), e.view()),
    {
        match e {
            RelayEvent::Produced(f) => {
                let bytes = encode(f.agent_id.as_str(), f.payload.as_slice());
                if bytes.len() > MAX_FRAME_LEN {
                    return RelayAction::Refused;
                }
                let ghost f_view = f.view();
                self.outbox.push(f);
                assert(frame_views(self.outbox@) =~= frame_views(old(self).outbox@).push(f_view));
                self.flush()
            },
            RelayEvent::DialSucceeded => {
                self.link = Link::Up;
                self.flush()
            },
            RelayEvent::DialFailed => {
                self.link = Link::Down;
                self.in_flight = 0;
                RelayAction::WaitThenDial(REDIAL_BACKOFF_SECS)
            },
            RelayEvent::BackoffElapsed => {
                if self.link == Link::Down {
                    self.link = Link::Dialing;
                    RelayAction::Dial
                } else {
                    RelayAction::Idle
                }
            },
            RelayEvent::WriteSucceeded => {
                let rest = self.outbox.split_off(self.in_flight);
                self.outbox = rest;
                self.in_flight = 0;
                assert(frame_views(self.outbox@) =~= frame_views(old(self).outbox@).subrange(
                    old(self).in_flight as int,
                    old(self).outbox@.len() as int,
                ));
                self.flush()
            },
            RelayEvent::WriteFailed => {
                self.link = Link::Down;
                self.in_flight = 0;
                RelayAction::WaitThenDial(REDIAL_BACKOFF_SECS)
            },
        }
    }
}

/// Only a successful write removes frames from the outbox, and then exactly
/// the ones it carried, from the front; every other event keeps every frame
/// in place. No produced command is dropped while the link is down.
pub proof fn lemma_outbox_keeps_frames(s: SenderView, e: EventView)
    requires
        sender_wf(s),
    ensures
        sender_wf(relay_next(s, e).0),
        e is WriteSucceeded ==> relay_next(s, e).0.outbox == s.outbox.subrange(
            s.in_flight as int,
            s.outbox.len() as int,
        ),
        !(e is WriteSucceeded) ==> relay_next(s, e).0.outbox.len() >= s.outbox.len()
            && relay_next(s, e).0.outbox.subrange(0, s.outbox.len() as int) == s.outbox,
{
    let n = relay_next(s, e).0;
    if !(e is WriteSucceeded) {
        assert(n.outbox.subrange(0, s.outbox.len() as int) =~= s.outbox);
    }
}

/// A command produced while the link is down, if it fits in one frame, waits
/// in the outbox; when the link next comes up, the first write carries every
/// waiting frame, that one last, as one run of frames (which `take_frames`
/// gives back whole).
pub proof fn lemma_held_until_reconnect(s: SenderView, f: (Seq<char>, Seq<u8>))
    requires
        sender_wf(s),
        frame_encoding(f.0, f.1).len() <= MAX_FRAME_LEN,
        s.link != Link::Up,
    ensures
        relay_next(s, EventView::Produced(f)).1 is Idle,
        relay_next(s, EventView::Produced(f)).0.outbox == s.outbox.push(f),
        relay_next(relay_next(s, EventView::Produced(f)).0, EventView::DialSucceeded).1
            == ActionView::Write(stream_of(s.outbox.push(f))),
        relay_next(relay_next(s, EventView::Produced(f)).0, EventView::DialSucceeded).0.in_flight
            == s.outbox.len() + 1,
{
}

} // verus!

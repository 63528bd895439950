//! The sending side: fragmentation, stop-and-wait ARQ, and explicit discovery.
//!
//! A [`Transfer`] decides; whoever holds the sound card plays the packets it asks
//! for and tells it what came back: that a packet was played, that a control frame
//! arrived, or that the time for one ran out.
use crate::band::Band;
use crate::event;
use crate::event::{emit, no_events, Event, Level};
use crate::framing;
use crate::framing::{
    encode_hello, CtrlFrame, DeviceId, FragHeader, BROADCAST, FRAG_PAYLOAD, T_ACK, T_HELLO,
    T_HELLO_ACK,
};
use crate::packet;
use crate::packet::{ceil_div, packet_duration_s};
use crate::profile;
use crate::profile::Profile;
use crate::reassembly;
use crate::text;
use crate::text::{push_decimal, push_hex4, push_hex_byte};
use vstd::prelude::*;
use vstd::slice::slice_subrange;

verus! {

/// Attempts per fragment before the transfer is abandoned.
pub const ARQ_RETRIES: usize = 4;

/// Attempts to find a peer during explicit discovery.
pub const HANDSHAKE_RETRIES: usize = 3;

/// Slack for the peer to re-arm and begin replying, in nanoseconds.
///
/// Deliberately generous. Opening a fresh output stream per packet was measured
/// at ~0.75 s on hardware whose descriptor claims 0.18 s, so reported latency
/// cannot size this. The asymmetry settles it: waiting too long costs nothing
/// when the ack does arrive -- the wait ends on the ack, not on the clock -- while
/// timing out early costs a full data packet resend, which is tens of seconds.
pub const TURNAROUND_S: u64 = 2_500_000_000;

/// Wait before answering, so the sender has finished re-arming, in nanoseconds.
///
/// A sender keeps its receiver muted for a moment after it stops playing, to let
/// the room's echo of its own packet decay. A peer that replies *inside* that
/// window loses the first thing it says -- the chirp preamble -- and the exchange
/// stalls with neither side at fault. This guard must exceed that tail.
pub const REPLY_GUARD_S: u64 = 400_000_000;

/// How much silence to leave after our own transmission before listening again, in
/// nanoseconds.
pub const ECHO_TAIL: u64 = 200_000_000;

/// Pause behind every fragment that got through, in nanoseconds; lets the peer re-arm.
pub const FRAGMENT_GAP: u64 = 150_000_000;

/// A peer that waits out the guard before it answers is heard from its first
/// sample on.
pub proof fn replies_come_after_the_echo_tail()
    ensures
        REPLY_GUARD_S > ECHO_TAIL,
{
}

// --------------------------------------------------------------------------- //
// Fragments
// --------------------------------------------------------------------------- //
/// How many fragments a message of `len` bytes takes; an empty one takes one.
pub open spec fn fragment_count(len: int) -> int {
    if len == 0 {
        1
    } else {
        packet::div_up(len, FRAG_PAYLOAD as int)
    }
}

/// Where fragment `i` ends.
pub open spec fn fragment_end(len: int, i: int) -> int {
    if FRAG_PAYLOAD * (i + 1) < len {
        FRAG_PAYLOAD * (i + 1)
    } else {
        len
    }
}

/// A message cut into fragments.
pub open spec fn fragments(blob: Seq<u8>) -> Seq<Seq<u8>> {
    Seq::new(
        fragment_count(blob.len() as int) as nat,
        |i: int| blob.subrange(FRAG_PAYLOAD * i, fragment_end(blob.len() as int, i)),
    )
}

pub proof fn lemma_fragment_count(len: int)
    requires
        0 <= len,
    ensures
        1 <= fragment_count(len),
        FRAG_PAYLOAD * (fragment_count(len) - 1) <= len <= FRAG_PAYLOAD * fragment_count(len),
        len > 0 ==> FRAG_PAYLOAD * (fragment_count(len) - 1) < len,
{
}

proof fn lemma_front(blob: Seq<u8>, n: int)
    requires
        0 <= n <= fragment_count(blob.len() as int),
    ensures
        reassembly::whole(fragments(blob).take(n)) == blob.take(
            if FRAG_PAYLOAD * n < blob.len() {
                FRAG_PAYLOAD * n
            } else {
                blob.len() as int
            },
        ),
    decreases n,
{
    let all = fragments(blob);
    let len = blob.len() as int;
    lemma_fragment_count(len);
    if n == 0 {
        assert(all.take(0).len() == 0);
        assert(blob.take(0) =~= Seq::<u8>::empty());
    } else {
        lemma_front(blob, n - 1);
        assert(all.take(n).drop_last() =~= all.take(n - 1));
        assert(all.take(n).last() == all[n - 1]);
        let a = FRAG_PAYLOAD * (n - 1);
        let b = fragment_end(len, n - 1);
        assert(a <= len);
        assert(blob.take(a) + blob.subrange(a, b) =~= blob.take(b));
    }
}

/// Fragments put back together are the message, none is longer than a fragment may
/// be, and a message takes no more of them than it needs.
pub proof fn fragments_hold_the_message(blob: Seq<u8>)
    ensures
        reassembly::whole(fragments(blob)) == blob,
        fragments(blob).len() >= 1,
        forall|i: int|
            0 <= i < fragments(blob).len() ==> (#[trigger] fragments(blob)[i]).len()
                <= FRAG_PAYLOAD,
        FRAG_PAYLOAD * (fragments(blob).len() - 1) < blob.len() || fragments(blob).len() == 1,
{
    let n = fragment_count(blob.len() as int);
    lemma_fragment_count(blob.len() as int);
    lemma_front(blob, n);
    assert(fragments(blob).take(n) =~= fragments(blob));
    assert(blob.take(blob.len() as int) =~= blob);
}

// --------------------------------------------------------------------------- //
// Budgets
// --------------------------------------------------------------------------- //
/// The smaller of the two.
pub open spec fn at_most(a: int, b: int) -> int {
    if a < b {
        a
    } else {
        b
    }
}

/// How long to wait for an answer of `len` bytes, in nanoseconds: its own air time,
/// the turnaround, what the answering side waits, and twice the device latency.
/// A wait that no clock can hold ends where the clock does.
pub open spec fn answer_budget(len: int, p: Profile, band: Band, guard: int, latency: int) -> int {
    at_most(
        packet::nearest_ns(packet::packet_sample_count(len, p, band)) + TURNAROUND_S + guard + 2
            * latency,
        u64::MAX as int,
    )
}

pub(crate) fn budget(len: usize, id: usize, p: &Profile, band: &Band, guard: u64, latency: u64) -> (ns: u64)
    requires
        profile::profile_of(id as int) == Some(*p),
        len <= 0xFFFF,
        guard <= REPLY_GUARD_S,
    ensures
        ns == answer_budget(len as int, *p, *band, guard as int, latency as int),
{
    proof {
        packet::lemma_table_sizes(id as int, len as int);
    }
    let fixed: u64 = packet_duration_s(len, p, band) + TURNAROUND_S + guard;
    fixed.saturating_add(latency).saturating_add(latency)
}

// --------------------------------------------------------------------------- //
// Transfers
// --------------------------------------------------------------------------- //
/// Where a transfer stands.
#[derive(Clone, Copy, Debug, PartialEq, Eq, Structural)]
pub enum Phase {
    /// A packet is to be played.
    Send,
    /// Its acknowledgement is awaited.
    Await,
    /// Every fragment is through.
    Done,
    /// A fragment was given up.
    Failed,
}

/// The state of a [`Transfer`].
#[verifier::ext_equal]
pub struct TransferView {
    pub kind: u8,
    /// Fragments ask to be acknowledged.
    pub arq: bool,
    pub me: DeviceId,
    pub dst: DeviceId,
    pub msg_id: u16,
    pub frags: Seq<Seq<u8>>,
    /// Attempts per fragment.
    pub retries: nat,
    /// The fragment in flight.
    pub idx: nat,
    /// The attempt in flight, counted from one.
    pub attempt: nat,
    pub phase: Phase,
}

/// A state and what is reported on the way there.
#[verifier::ext_equal]
pub struct Step {
    pub to: TransferView,
    pub events: Seq<event::EventView>,
}

/// The header of the fragment in flight. Its numbers have two bytes each.
pub open spec fn header_in_flight(t: TransferView) -> FragHeader {
    FragHeader {
        kind: t.kind,
        ack_req: t.arq,
        src: t.me,
        dst: t.dst,
        msg_id: t.msg_id,
        frag_idx: (t.idx % 0x1_0000) as u16,
        frag_total: (t.frags.len() % 0x1_0000) as u16,
    }
}

/// The frame in flight.
pub open spec fn frame_in_flight(t: TransferView) -> Seq<u8> {
    header_in_flight(t).bytes() + t.frags[t.idx as int]
}

/// `i/n`, fragments counted from one.
pub open spec fn of_total(t: TransferView) -> Seq<char> {
    text::decimal((t.idx + 1) as nat) + "/"@ + text::decimal(t.frags.len())
}

/// The report of a fragment that is through.
pub open spec fn tx_progress(t: TransferView) -> event::EventView {
    event::EventView::Progress {
        pct: ((t.idx + 1) * 100 / t.frags.len()) as u8,
        note: "TX "@ + of_total(t),
    }
}

/// The state once the fragment in flight is through.
pub open spec fn next_fragment(t: TransferView) -> TransferView {
    TransferView {
        idx: t.idx + 1,
        attempt: 1,
        phase: if t.idx + 1 == t.frags.len() {
            Phase::Done
        } else {
            Phase::Send
        },
        ..t
    }
}

/// After a packet was played.
pub open spec fn played(t: TransferView) -> Step {
    if t.arq {
        Step { to: TransferView { phase: Phase::Await, ..t }, events: Seq::empty() }
    } else {
        Step { to: next_fragment(t), events: seq![tx_progress(t)] }
    }
}

/// The identity check the whole scheme rests on: once we know the peer, only that
/// peer can advance us to the next fragment.
pub open spec fn acknowledges(c: CtrlFrame, t: TransferView) -> bool {
    &&& c.kind == T_ACK
    &&& t.dst == BROADCAST || c.src == t.dst
    &&& c.dst == t.me
    &&& c.msg_id == t.msg_id
    &&& c.frag_idx == t.idx % 0x1_0000
}

/// The report of a control frame that is not the one awaited.
pub open spec fn ignored(c: CtrlFrame) -> event::EventView {
    event::EventView::Log(
        Level::Warn,
        "ignored control frame "@ + text::hex_byte(c.kind) + " from "@ + text::hex4(c.src),
    )
}

/// After a control frame arrived while an acknowledgement was awaited.
pub open spec fn answered(t: TransferView, c: CtrlFrame) -> Step {
    if acknowledges(c, t) {
        let named = TransferView {
            dst: if t.dst == BROADCAST {
                c.src
            } else {
                t.dst
            },
            ..t
        };
        let introduction = if t.dst == BROADCAST {
            seq![
                event::EventView::PeerChanged(c.src),
                event::EventView::Log(
                    Level::Info,
                    "peer "@ + text::hex4(c.src) + " identified itself in its ack"@,
                ),
            ]
        } else {
            Seq::empty()
        };
        Step {
            to: next_fragment(named),
            events: introduction.push(
                event::EventView::Log(
                    Level::Info,
                    "frag "@ + of_total(t) + " acked by "@ + text::hex4(named.dst),
                ),
            ).push(tx_progress(t)),
        }
    } else {
        Step { to: t, events: seq![ignored(c)] }
    }
}

/// The report of an attempt that was not acknowledged in time.
pub open spec fn unacked(t: TransferView) -> event::EventView {
    event::EventView::Log(
        Level::Warn,
        "frag "@ + of_total(t) + " unacked (attempt "@ + text::decimal(t.attempt) + "/"@
            + text::decimal(t.retries) + ") -- resending"@,
    )
}

/// Why a transfer failed.
pub open spec fn gave_up(t: TransferView) -> Seq<char> {
    "frag "@ + of_total(t) + " gave up after "@ + text::decimal(t.retries)
        + " attempts; message "@ + text::hex4(t.msg_id) + " is incomplete"@
}

/// After the time for an acknowledgement ran out.
///
/// With the last attempt the peer has gone quiet. It is forgotten, so the next
/// message rediscovers instead of talking to a ghost.
pub open spec fn timed_out(t: TransferView) -> Step {
    if t.attempt < t.retries {
        Step {
            to: TransferView { attempt: t.attempt + 1, phase: Phase::Send, ..t },
            events: seq![unacked(t)],
        }
    } else {
        Step {
            to: TransferView { phase: Phase::Failed, ..t },
            events: seq![
                unacked(t),
                event::EventView::PeerChanged(BROADCAST),
                event::EventView::Progress { pct: 0, note: "TX failed"@ },
                event::EventView::Log(Level::Error, gave_up(t)),
            ],
        }
    }
}

/// A transfer that can go on: it stands at a fragment, or behind the last.
pub open spec fn sound(t: TransferView) -> bool {
    &&& t.frags.len() >= 1
    &&& t.frags == fragments(reassembly::whole(t.frags))
    &&& 1 <= t.attempt <= t.retries
    &&& t.phase == Phase::Done <==> t.idx == t.frags.len()
    &&& t.idx <= t.frags.len()
    &&& t.phase == Phase::Await ==> t.arq
}

/// The transfer has just come to its fragment: the one before it got through.
pub open spec fn just_through(t: TransferView) -> bool {
    0 < t.idx && t.attempt == 1 && (t.phase == Phase::Send || t.phase == Phase::Done)
}

/// One message on its way out.
pub struct Transfer {
    kind: u8,
    arq: bool,
    me: DeviceId,
    dst: DeviceId,
    msg_id: u16,
    blob: Vec<u8>,
    total: usize,
    retries: usize,
    idx: usize,
    attempt: usize,
    phase: Phase,
    ack_wait: u64,
}

impl View for Transfer {
    type V = TransferView;

    closed spec fn view(&self) -> TransferView {
        TransferView {
            kind: self.kind,
            arq: self.arq,
            me: self.me,
            dst: self.dst,
            msg_id: self.msg_id,
            frags: fragments(self.blob@),
            retries: self.retries as nat,
            idx: self.idx as nat,
            attempt: self.attempt as nat,
            phase: self.phase,
        }
    }
}

impl Transfer {
    pub closed spec fn wf(self) -> bool {
        &&& self.total == fragment_count(self.blob@.len() as int)
        &&& sound(self@)
    }

    /// How long to wait for each acknowledgement, in nanoseconds.
    pub closed spec fn patience(self) -> u64 {
        self.ack_wait
    }

    /// A message that is about to be sent.
    pub(crate) fn start(
        kind: u8,
        arq: bool,
        me: DeviceId,
        dst: DeviceId,
        msg_id: u16,
        blob: Vec<u8>,
        retries: usize,
        ack_wait: u64,
    ) -> (t: Self)
        requires
            1 <= retries,
        ensures
            t.wf(),
            t.patience() == ack_wait,
            t@ == (TransferView {
                kind,
                arq,
                me,
                dst,
                msg_id,
                frags: fragments(blob@),
                retries: retries as nat,
                idx: 0,
                attempt: 1,
                phase: Phase::Send,
            }),
    {
        proof {
            fragments_hold_the_message(blob@);
        }
        let total: usize = if blob.len() == 0 {
            1
        } else {
            ceil_div(blob.len(), FRAG_PAYLOAD)
        };
        Transfer {
            kind,
            arq,
            me,
            dst,
            msg_id,
            blob,
            total,
            retries,
            idx: 0,
            attempt: 1,
            phase: Phase::Send,
            ack_wait,
        }
    }

    pub fn phase(&self) -> (p: Phase)
        ensures
            p == self@.phase,
    {
        self.phase
    }

    /// How long to wait for the acknowledgement, in nanoseconds.
    pub fn ack_wait(&self) -> (ns: u64)
        ensures
            ns == self.patience(),
    {
        self.ack_wait
    }

    /// How long to pause before the next step, in nanoseconds.
    pub fn gap(&self) -> (ns: u64)
        ensures
            ns == (if just_through(self@) {
                FRAGMENT_GAP
            } else {
                0
            }),
    {
        let rests: bool = self.phase == Phase::Send || self.phase == Phase::Done;
        if rests && 0 < self.idx && self.attempt == 1 {
            FRAGMENT_GAP
        } else {
            0
        }
    }

    /// The frame to play now.
    pub fn frame(&self) -> (bytes: Vec<u8>)
        requires
            self.wf(),
            self@.phase == Phase::Send,
        ensures
            bytes@ == frame_in_flight(self@),
    {
        let hdr = FragHeader {
            kind: self.kind,
            ack_req: self.arq,
            src: self.me,
            dst: self.dst,
            msg_id: self.msg_id,
            frag_idx: (self.idx % 0x1_0000) as u16,
            frag_total: (self.total % 0x1_0000) as u16,
        };
        let len: usize = self.blob.len();
        proof {
            lemma_fragment_count(len as int);
        }
        let from: usize = FRAG_PAYLOAD * self.idx;
        let to: usize = if len - from < FRAG_PAYLOAD {
            len
        } else {
            from + FRAG_PAYLOAD
        };
        let frag = slice_subrange(self.blob.as_slice(), from, to);
        assert(frag@ =~= self@.frags[self.idx as int]);
        hdr.encode(frag)
    }

    fn push_of_total(&self, s: &mut String)
        requires
            self.wf(),
            self@.idx < self@.frags.len(),
        ensures
            final(s)@ == old(s)@ + of_total(self@),
    {
        push_decimal(s, self.idx as u128 + 1);
        s.append("/");
        push_decimal(s, self.total as u128);
        assert(s@ =~= old(s)@ + of_total(self@));
    }

    fn progress(&self) -> (e: Event)
        requires
            self.wf(),
            self@.idx < self@.frags.len(),
        ensures
            e@ == tx_progress(self@),
    {
        let mut note = "TX ".to_owned();
        self.push_of_total(&mut note);
        let part: u128 = (self.idx as u128 + 1) * 100;
        assert(part as int / (self.total as int) <= 100) by (nonlinear_arith)
            requires
                part <= 100 * self.total,
                0 < self.total,
        ;
        let pct: u8 = (part / self.total as u128) as u8;
        Event::Progress { pct, note }
    }

    fn next(&mut self)
        requires
            old(self).wf(),
            old(self)@.idx < old(self)@.frags.len(),
        ensures
            final(self).wf(),
            final(self)@ == next_fragment(old(self)@),
            final(self).patience() == old(self).patience(),
    {
        self.idx = self.idx + 1;
        self.attempt = 1;
        self.phase = if self.idx == self.total {
            Phase::Done
        } else {
            Phase::Send
        };
    }

    /// The packet was played.
    pub fn sent(&mut self) -> (events: Vec<Event>)
        requires
            old(self).wf(),
            old(self)@.phase == Phase::Send,
        ensures
            final(self).wf(),
            final(self)@ == played(old(self)@).to,
            event::views(events@) == played(old(self)@).events,
            final(self).patience() == old(self).patience(),
    {
        let mut events = no_events();
        if self.arq {
            self.phase = Phase::Await;
        } else {
            let e = self.progress();
            emit(&mut events, e);
            self.next();
        }
        assert(event::views(events@) =~= played(old(self)@).events);
        events
    }

    /// A control frame arrived while the acknowledgement was awaited.
    ///
    /// Frames that do not match -- a stray ack, or a reply from a device that is
    /// not our peer -- are discarded and the wait continues.
    pub fn on_ctrl(&mut self, c: &CtrlFrame) -> (events: Vec<Event>)
        requires
            old(self).wf(),
            old(self)@.phase == Phase::Await,
        ensures
            final(self).wf(),
            final(self)@ == answered(old(self)@, *c).to,
            event::views(events@) == answered(old(self)@, *c).events,
            final(self).patience() == old(self).patience(),
    {
        let mut events = no_events();
        let accepted: bool = c.kind == T_ACK && (self.dst == BROADCAST || c.src == self.dst)
            && c.dst == self.me && c.msg_id == self.msg_id && c.frag_idx as usize == self.idx
            % 0x1_0000;
        if !accepted {
            emit(&mut events, ignored_frame(c));
            assert(event::views(events@) =~= answered(old(self)@, *c).events);
            return events;
        }
        let progress = self.progress();
        let mut acked = "frag ".to_owned();
        self.push_of_total(&mut acked);
        acked.append(" acked by ");
        if self.dst == BROADCAST {
            self.dst = c.src;
            emit(&mut events, Event::PeerChanged(c.src));
            let mut note = "peer ".to_owned();
            push_hex4(&mut note, c.src);
            note.append(" identified itself in its ack");
            emit(&mut events, Event::Log(Level::Info, note));
        }
        push_hex4(&mut acked, self.dst);
        emit(&mut events, Event::Log(Level::Info, acked));
        emit(&mut events, progress);
        self.next();
        assert(event::views(events@) =~= answered(old(self)@, *c).events);
        events
    }

    /// The time for the acknowledgement ran out.
    pub fn on_timeout(&mut self) -> (events: Vec<Event>)
        requires
            old(self).wf(),
            old(self)@.phase == Phase::Await,
        ensures
            final(self).wf(),
            final(self)@ == timed_out(old(self)@).to,
            event::views(events@) == timed_out(old(self)@).events,
            final(self).patience() == old(self).patience(),
    {
        let mut events = no_events();
        let mut note = "frag ".to_owned();
        self.push_of_total(&mut note);
        note.append(" unacked (attempt ");
        push_decimal(&mut note, self.attempt as u128);
        note.append("/");
        push_decimal(&mut note, self.retries as u128);
        note.append(") -- resending");
        emit(&mut events, Event::Log(Level::Warn, note));
        if self.attempt < self.retries {
            self.attempt = self.attempt + 1;
            self.phase = Phase::Send;
        } else {
            emit(&mut events, Event::PeerChanged(BROADCAST));
            emit(&mut events, Event::Progress { pct: 0, note: "TX failed".to_owned() });
            let why = self.failure();
            emit(&mut events, Event::Log(Level::Error, why));
            self.phase = Phase::Failed;
        }
        assert(event::views(events@) =~= timed_out(old(self)@).events);
        events
    }

    /// Why the transfer failed.
    pub fn failure(&self) -> (why: String)
        requires
            self.wf(),
            self@.idx < self@.frags.len(),
        ensures
            why@ == gave_up(self@),
    {
        let mut why = "frag ".to_owned();
        self.push_of_total(&mut why);
        why.append(" gave up after ");
        push_decimal(&mut why, self.retries as u128);
        why.append(" attempts; message ");
        push_hex4(&mut why, self.msg_id);
        why.append(" is incomplete");
        why
    }
}

/// The report of a control frame that is not the one awaited.
fn ignored_frame(c: &CtrlFrame) -> (e: Event)
    ensures
        e@ == ignored(*c),
{
    let mut note = "ignored control frame ".to_owned();
    push_hex_byte(&mut note, c.kind);
    note.append(" from ");
    push_hex4(&mut note, c.src);
    Event::Log(Level::Warn, note)
}

// --------------------------------------------------------------------------- //
// Whole transfers
// --------------------------------------------------------------------------- //
/// What can happen to a transfer.
pub enum Happening {
    Played,
    Ctrl(CtrlFrame),
    Timeout,
}

/// A transfer in this phase can meet this.
pub open spec fn can_happen(t: TransferView, h: Happening) -> bool {
    match h {
        Happening::Played => t.phase == Phase::Send,
        _ => t.phase == Phase::Await,
    }
}

/// What it does then.
pub open spec fn reaction(t: TransferView, h: Happening) -> Step {
    match h {
        Happening::Played => played(t),
        Happening::Ctrl(c) => answered(t, c),
        Happening::Timeout => timed_out(t),
    }
}

/// Where a transfer stands after a run of happenings.
pub open spec fn reached(t: TransferView, run: Seq<Happening>) -> TransferView
    decreases run.len(),
{
    if run.len() == 0 {
        t
    } else {
        reaction(reached(t, run.drop_last()), run.last()).to
    }
}

/// A run of happenings, each where it can happen.
pub open spec fn possible(t: TransferView, run: Seq<Happening>) -> bool
    decreases run.len(),
{
    run.len() == 0 || (possible(t, run.drop_last()) && can_happen(
        reached(t, run.drop_last()),
        run.last(),
    ))
}

/// How many packets were played.
pub open spec fn packets(run: Seq<Happening>) -> nat
    decreases run.len(),
{
    if run.len() == 0 {
        0
    } else {
        packets(run.drop_last()) + (if run.last() is Played {
            1nat
        } else {
            0
        })
    }
}

/// How many packets a transfer may still play.
pub open spec fn packets_left(t: TransferView) -> int {
    if t.idx >= t.frags.len() {
        0
    } else {
        (t.frags.len() - t.idx) * t.retries - (t.attempt - 1) - (if t.phase == Phase::Send {
            0int
        } else {
            1
        })
    }
}

proof fn lemma_sound_step(t: TransferView, h: Happening)
    requires
        sound(t),
        can_happen(t, h),
    ensures
        sound(reaction(t, h).to),
        packets_left(reaction(t, h).to) + (if h is Played {
            1int
        } else {
            0
        }) <= packets_left(t),
        0 <= packets_left(reaction(t, h).to),
{
    let n = t.frags.len() - t.idx;
    let r = t.retries as int;
    assert(n * r == (n - 1) * r + r) by (nonlinear_arith);
    assert(n >= 1 ==> 0 <= (n - 1) * r) by (nonlinear_arith)
        requires
            1 <= r,
    ;
}

proof fn lemma_reached(t: TransferView, run: Seq<Happening>)
    requires
        sound(t),
        possible(t, run),
    ensures
        sound(reached(t, run)),
        packets(run) + packets_left(reached(t, run)) <= packets_left(t),
        run.len() > 0 ==> 0 <= packets_left(reached(t, run)),
    decreases run.len(),
{
    if run.len() > 0 {
        lemma_reached(t, run.drop_last());
        lemma_sound_step(reached(t, run.drop_last()), run.last());
    }
}

/// A pause follows every fragment that got through, the last one too, and nothing
/// else: neither a packet that is still to be acknowledged, nor a stray control frame,
/// nor an attempt that failed.
pub proof fn a_gap_follows_each_fragment(t: TransferView, h: Happening)
    requires
        sound(t),
        can_happen(t, h),
    ensures
        just_through(reaction(t, h).to) <==> reaction(t, h).to.idx == t.idx + 1,
        !just_through(reaction(t, h).to) ==> reaction(t, h).to.idx == t.idx,
{
}

/// A transfer plays no more packets than it has fragments times attempts, whatever
/// happens.
pub proof fn air_time_is_bounded(t: TransferView, run: Seq<Happening>)
    requires
        sound(t),
        possible(t, run),
        t.idx == 0,
        t.attempt == 1,
        t.phase == Phase::Send,
    ensures
        packets(run) <= t.frags.len() * t.retries,
{
    lemma_reached(t, run);
    if run.len() == 0 {
        assert(0 <= t.frags.len() * t.retries) by (nonlinear_arith);
    }
}

/// Once the peer is known, it does not change for the rest of the transfer.
pub proof fn a_known_peer_stays(t: TransferView, run: Seq<Happening>)
    requires
        t.dst != BROADCAST,
    ensures
        reached(t, run).dst == t.dst,
        reached(t, run).me == t.me,
        reached(t, run).msg_id == t.msg_id,
        reached(t, run).frags == t.frags,
        reached(t, run).arq == t.arq,
    decreases run.len(),
{
    if run.len() > 0 {
        a_known_peer_stays(t, run.drop_last());
    }
}

/// A control frame that is not the acknowledgement awaited -- from a third device,
/// for another fragment, of another message or for another device -- leaves the
/// transfer where it is.
pub proof fn stray_control_frames_advance_nothing(t: TransferView, c: CtrlFrame)
    requires
        c.kind != T_ACK || (t.dst != BROADCAST && c.src != t.dst) || c.dst != t.me || c.msg_id
            != t.msg_id || c.frag_idx != t.idx % 0x1_0000,
    ensures
        answered(t, c).to == t,
        answered(t, c).events == seq![ignored(c)],
{
}

/// The acknowledgement of fragment `i` was accepted at place `j` of a run.
pub open spec fn accepted_at(t: TransferView, run: Seq<Happening>, i: int, j: int) -> bool {
    &&& 0 <= j < run.len()
    &&& reached(t, run.take(j)).idx == i
    &&& run[j] matches Happening::Ctrl(c) && acknowledges(c, reached(t, run.take(j)))
}

/// Every fragment that is through was acknowledged, each by its own frame; so a
/// transfer that asked for acknowledgements succeeds only where all came.
pub proof fn success_means_every_fragment_was_acked(t: TransferView, run: Seq<Happening>, i: int)
    requires
        sound(t),
        t.arq,
        t.idx == 0,
        possible(t, run),
        0 <= i < reached(t, run).idx,
    ensures
        exists|j: int| accepted_at(t, run, i, j),
        reached(t, run).arq,
    decreases run.len(),
{
    let before = run.drop_last();
    let at = reached(t, before);
    lemma_arq_stays(t, before);
    lemma_arq_stays(t, run);
    lemma_reached(t, before);
    if i < at.idx {
        success_means_every_fragment_was_acked(t, before, i);
        let j = choose|j: int| accepted_at(t, before, i, j);
        assert(before.take(j) =~= run.take(j));
        assert(accepted_at(t, run, i, j));
    } else {
        let j = run.len() - 1;
        assert(run.take(j) =~= before);
        assert(accepted_at(t, run, i, j));
    }
}

proof fn lemma_arq_stays(t: TransferView, run: Seq<Happening>)
    ensures
        reached(t, run).arq == t.arq,
    decreases run.len(),
{
    if run.len() > 0 {
        lemma_arq_stays(t, run.drop_last());
    }
}

/// A message of one fragment costs one packet each way: played once, acknowledged
/// once, done.
pub proof fn a_short_message_costs_one_packet_each_way(t: TransferView, c: CtrlFrame)
    requires
        sound(t),
        t.phase == Phase::Send,
        t.arq,
        t.frags.len() == 1,
        acknowledges(c, t),
    ensures
        ({
            let run = seq![Happening::Played, Happening::Ctrl(c)];
            possible(t, run) && reached(t, run).phase == Phase::Done && packets(run) == 1
        }),
{
    let one = seq![Happening::Played];
    let run = seq![Happening::Played, Happening::Ctrl(c)];
    let none = Seq::<Happening>::empty();
    assert(run.drop_last() =~= one);
    assert(one.drop_last() =~= none);
    assert(reached(t, none) == t);
    assert(reached(t, one) == played(t).to);
    assert(possible(t, none));
    assert(possible(t, one));
    assert(packets(none) == 0);
    assert(packets(one) == 1);
}

/// The peer that the last such report names.
pub open spec fn peer_after(peer: DeviceId, events: Seq<event::EventView>) -> DeviceId
    decreases events.len(),
{
    if events.len() == 0 {
        peer
    } else {
        match events.last() {
            event::EventView::PeerChanged(id) => id,
            _ => peer_after(peer, events.drop_last()),
        }
    }
}

/// A transfer that fails forgets the peer, so the next message rediscovers.
pub proof fn failure_forgets_the_peer(t: TransferView, peer: DeviceId)
    requires
        timed_out(t).to.phase == Phase::Failed,
        t.phase == Phase::Await,
    ensures
        peer_after(peer, timed_out(t).events) == BROADCAST,
{
    let e = timed_out(t).events;
    assert(t.attempt >= t.retries);
    let e3 = e.drop_last();
    let e2 = e3.drop_last();
    assert(e.last() == event::EventView::Log(Level::Error, gave_up(t)));
    assert(e3.last() == event::EventView::Progress { pct: 0, note: "TX failed"@ });
    assert(e2.last() == event::EventView::PeerChanged(BROADCAST));
    assert(peer_after(peer, e2) == BROADCAST);
    assert(peer_after(peer, e3) == BROADCAST);
}

/// The first acknowledgement names the peer: a sender that knew nobody addresses
/// whoever answered, and remembers it.
pub proof fn the_first_ack_names_the_peer(t: TransferView, c: CtrlFrame, peer: DeviceId)
    requires
        t.dst == BROADCAST,
        acknowledges(c, t),
    ensures
        answered(t, c).to.dst == c.src,
        peer_after(peer, answered(t, c).events) == c.src,
{
    let e = answered(t, c).events;
    let e3 = e.drop_last();
    let e2 = e3.drop_last();
    let e1 = e2.drop_last();
    assert(e1.last() == event::EventView::PeerChanged(c.src));
    assert(peer_after(peer, e1) == c.src);
    assert(peer_after(peer, e2) == c.src);
    assert(peer_after(peer, e3) == c.src);
}

/// A timeout costs one attempt and nothing else, whoever is addressed: the transfer is
/// given up with the last attempt it may make, and never before.
pub proof fn every_attempt_is_made(t: TransferView)
    requires
        sound(t),
        t.phase == Phase::Await,
    ensures
        timed_out(t).to.phase == Phase::Failed <==> t.attempt == t.retries,
        t.attempt < t.retries ==> timed_out(t).to.phase == Phase::Send && timed_out(t).to.attempt
            == t.attempt + 1,
        (TransferView { attempt: t.attempt, phase: t.phase, ..timed_out(t).to }) == t,
{
}

/// How many packets of fragment `i` were played.
pub open spec fn packets_of(t: TransferView, run: Seq<Happening>, i: nat) -> nat
    decreases run.len(),
{
    if run.len() == 0 {
        0
    } else {
        packets_of(t, run.drop_last(), i) + (if run.last() is Played && reached(
            t,
            run.drop_last(),
        ).idx == i {
            1nat
        } else {
            0
        })
    }
}

/// Whatever happens: the fragments before the one in flight were played at least once
/// and no more often than there are attempts, those behind it not at all, and the one
/// in flight as often as its attempt says. A transfer that failed has played its last
/// fragment exactly as often as it may; one that asks for no acknowledgement plays each
/// fragment once and does not fail.
#[verifier::rlimit(40)]
#[verifier::spinoff_prover]
pub proof fn packets_are_played_as_often_as_attempts_say(
    t: TransferView,
    run: Seq<Happening>,
    i: nat,
)
    requires
        sound(t),
        possible(t, run),
        t.idx == 0,
        t.attempt == 1,
        t.phase == Phase::Send,
    ensures
        ({
            let r = reached(t, run);
            &&& i < r.idx ==> 1 <= packets_of(t, run, i) <= t.retries
            &&& i > r.idx ==> packets_of(t, run, i) == 0
            &&& r.phase == Phase::Send ==> packets_of(t, run, r.idx) == r.attempt - 1
            &&& r.phase == Phase::Await ==> packets_of(t, run, r.idx) == r.attempt
            &&& r.phase == Phase::Failed ==> t.arq && packets_of(t, run, r.idx) == t.retries
            &&& r.phase == Phase::Done ==> packets_of(t, run, r.idx) == 0
            &&& !t.arq && i < r.idx ==> packets_of(t, run, i) == 1
            &&& !t.arq ==> r.attempt == 1
        }),
        reached(t, run).retries == t.retries,
    decreases run.len(),
{
    if run.len() > 0 {
        let before = run.drop_last();
        let at = reached(t, before);
        packets_are_played_as_often_as_attempts_say(t, before, i);
        packets_are_played_as_often_as_attempts_say(t, before, at.idx);
        packets_are_played_as_often_as_attempts_say(t, before, (at.idx + 1) as nat);
        lemma_reached(t, before);
        lemma_arq_stays(t, before);
        lemma_one_step(at, run.last());
    }
}

/// Where one happening leads.
proof fn lemma_one_step(at: TransferView, h: Happening)
    requires
        sound(at),
        can_happen(at, h),
    ensures
        ({
            let to = reaction(at, h).to;
            let next = to.idx == at.idx + 1 && to.attempt == 1 && (to.phase == Phase::Send
                || to.phase == Phase::Done);
            &&& to.retries == at.retries
            &&& h is Played ==> at.phase == Phase::Send && if at.arq {
                to.idx == at.idx && to.attempt == at.attempt && to.phase == Phase::Await
            } else {
                next
            }
            &&& h is Ctrl ==> at.phase == Phase::Await && at.arq && (next || to == at)
            &&& h is Timeout ==> at.phase == Phase::Await && at.arq && to.idx == at.idx && if to.phase
                == Phase::Failed {
                at.attempt == at.retries
            } else {
                to.phase == Phase::Send && to.attempt == at.attempt + 1
            }
        }),
{
}

/// So many attempts that nobody answers.
pub open spec fn unheard(n: nat) -> Seq<Happening> {
    Seq::new(
        2 * n,
        |i: int|
            if i % 2 == 0 {
                Happening::Played
            } else {
                Happening::Timeout
            },
    )
}

/// Where nobody answers, the fragment is played once for each attempt, and only behind
/// the last of them is the transfer given up. Whether the peer is known makes no
/// difference.
pub proof fn silence_costs_all_attempts(t: TransferView, n: nat)
    requires
        sound(t),
        t.arq,
        t.attempt == 1,
        t.phase == Phase::Send,
        n <= t.retries,
    ensures
        possible(t, unheard(n)),
        packets(unheard(n)) == n,
        n < t.retries ==> reached(t, unheard(n)) == (TransferView { attempt: n + 1, ..t }),
        n == t.retries ==> reached(t, unheard(n)).phase == Phase::Failed,
        reached(t, unheard(n)).idx == t.idx,
        reached(t, unheard(n)).dst == t.dst,
    decreases n,
{
    if n == 0 {
        assert(unheard(n) =~= Seq::<Happening>::empty());
    } else {
        let m = (n - 1) as nat;
        silence_costs_all_attempts(t, m);
        let run = unheard(n);
        let half = run.drop_last();
        assert(half.drop_last() =~= unheard(m));
        assert(half.last() is Played);
        assert(run.last() is Timeout);
        assert(reached(t, half) == played(reached(t, unheard(m))).to);
        assert(possible(t, half));
        assert(packets(half) == packets(unheard(m)) + 1);
    }
}

/// A packet that asks for an acknowledgement changes nothing but that one is awaited,
/// and nothing is reported. One that asks for none is through as it is played, and so
/// reported.
pub proof fn a_played_packet_waits_or_is_through(t: TransferView)
    requires
        sound(t),
        t.phase == Phase::Send,
    ensures
        t.arq ==> played(t).to == (TransferView { phase: Phase::Await, ..t }) && played(
            t,
        ).events.len() == 0,
        !t.arq ==> is_through(t, played(t).to) && played(t).to.dst == t.dst && played(
            t,
        ).events.len() == 1 && tells_progress(t, played(t).events.last()),
{
    if !t.arq {
        lemma_progress(t);
    }
}

/// The transfer stands behind the fragment that was in flight, and nothing but the peer
/// may have become known on the way.
pub open spec fn is_through(t: TransferView, to: TransferView) -> bool {
    &&& to.idx == t.idx + 1
    &&& to.attempt == 1
    &&& to.phase == Phase::Done <==> to.idx == t.frags.len()
    &&& to.phase == Phase::Send <==> to.idx < t.frags.len()
    &&& TransferView { idx: t.idx, attempt: t.attempt, phase: t.phase, dst: t.dst, ..to } == t
}

/// The report says how many of the fragments are through, in whole percent.
pub open spec fn tells_progress(t: TransferView, e: event::EventView) -> bool {
    &&& e matches event::EventView::Progress { pct, note } && {
        &&& pct * t.frags.len() <= 100 * (t.idx + 1) < (pct + 1) * t.frags.len()
        &&& note == "TX "@ + text::decimal((t.idx + 1) as nat) + "/"@ + text::decimal(
            t.frags.len(),
        )
    }
}

proof fn lemma_progress(t: TransferView)
    requires
        t.idx < t.frags.len(),
    ensures
        tells_progress(t, tx_progress(t)),
{
    let n = t.frags.len() as int;
    let a = (t.idx + 1) * 100int;
    let q = a / n;
    vstd::arithmetic::div_mod::lemma_fundamental_div_mod(a, n);
    assert(q * n <= a < (q + 1) * n) by (nonlinear_arith)
        requires
            a == n * q + a % n,
            0 <= a % n < n,
    ;
    assert(0 <= q <= 100) by (nonlinear_arith)
        requires
            q * n <= a < (q + 1) * n,
            0 <= a <= 100 * n,
            0 < n,
    ;
    assert("TX "@ + of_total(t) =~= "TX "@ + text::decimal((t.idx + 1) as nat) + "/"@
        + text::decimal(t.frags.len()));
}

/// An acknowledgement of the fragment in flight, for us and our message, from the peer
/// or from anyone where no peer is known, takes the transfer to the next fragment
/// whatever attempt it answers. The last report tells the progress.
pub proof fn an_acknowledged_fragment_is_through(t: TransferView, c: CtrlFrame)
    requires
        sound(t),
        t.phase == Phase::Await,
        c.kind == T_ACK,
        c.dst == t.me,
        c.msg_id == t.msg_id,
        c.frag_idx == t.idx % 0x1_0000,
        t.dst == BROADCAST || c.src == t.dst,
    ensures
        is_through(t, answered(t, c).to),
        answered(t, c).to.dst == c.src,
        answered(t, c).events.len() >= 1,
        tells_progress(t, answered(t, c).events.last()),
{
    lemma_progress(t);
}

/// Every fragment but the last is full.
pub proof fn fragments_are_full_but_the_last(blob: Seq<u8>, i: int)
    requires
        0 <= i < fragments(blob).len(),
    ensures
        i < fragments(blob).len() - 1 ==> fragments(blob)[i].len() == FRAG_PAYLOAD,
        fragments(blob)[i] == blob.subrange(
            FRAG_PAYLOAD * i,
            FRAG_PAYLOAD * i + fragments(blob)[i].len(),
        ),
{
    lemma_fragment_count(blob.len() as int);
}

/// A wait for an answer is as long as the answer is on the air, to the nanosecond, and
/// two and a half seconds, the answering side's guard and twice the latency on top; or
/// the longest there is.
pub proof fn waits_hold_the_answer(len: int, p: Profile, band: Band, guard: nat, latency: nat)
    requires
        0 <= packet::packet_sample_count(len, p, band),
    ensures
        ({
            let ns = answer_budget(len, p, band, guard as int, latency as int);
            let air = ns - 2_500_000_000 - guard - 2 * latency;
            let samples = packet::packet_sample_count(len, p, band);
            &&& ns <= u64::MAX
            &&& ns < u64::MAX ==> -24_000 <= 48_000 * air - 1_000_000_000 * samples <= 24_000
            &&& ns == u64::MAX ==> 48_000 * air - 1_000_000_000 * samples <= 24_000
        }),
{
    packet::times_are_near(packet::packet_sample_count(len, p, band));
}

// --------------------------------------------------------------------------- //
// Discovery
// --------------------------------------------------------------------------- //
/// The state of a [`Handshake`].
#[verifier::ext_equal]
pub struct HandshakeView {
    pub me: DeviceId,
    /// The attempt in flight, counted from one.
    pub attempt: nat,
    pub phase: Phase,
    /// Who answered; everyone, while nobody has.
    pub peer: DeviceId,
}

/// A state and what is reported on the way there.
#[verifier::ext_equal]
pub struct HandshakeStep {
    pub to: HandshakeView,
    pub events: Seq<event::EventView>,
}

/// The report of an attempt to find a peer.
pub open spec fn hello_note(me: DeviceId, attempt: nat) -> event::EventView {
    event::EventView::Log(
        Level::Info,
        "handshake "@ + text::decimal(attempt) + "/"@ + text::decimal(HANDSHAKE_RETRIES as nat)
            + ": hello from "@ + text::hex4(me),
    )
}

/// After a control frame arrived while an answer was awaited. Only an answer to us
/// counts, and an answer from nobody names no peer.
pub open spec fn greeted(h: HandshakeView, c: CtrlFrame) -> HandshakeStep {
    if c.kind == T_HELLO_ACK && c.dst == h.me {
        let note = event::EventView::Log(
            Level::Info,
            "peer "@ + text::hex4(c.src) + " answered"@,
        );
        HandshakeStep {
            to: HandshakeView { phase: Phase::Done, peer: c.src, ..h },
            events: if c.src == BROADCAST {
                seq![note]
            } else {
                seq![note, event::EventView::PeerChanged(c.src)]
            },
        }
    } else {
        HandshakeStep { to: h, events: seq![ignored(c)] }
    }
}

/// After the time for an answer ran out.
pub open spec fn unanswered(h: HandshakeView) -> HandshakeStep {
    if h.attempt < HANDSHAKE_RETRIES {
        HandshakeStep {
            to: HandshakeView { attempt: h.attempt + 1, phase: Phase::Send, ..h },
            events: seq![hello_note(h.me, h.attempt + 1)],
        }
    } else {
        HandshakeStep {
            to: HandshakeView { phase: Phase::Done, ..h },
            events: Seq::empty(),
        }
    }
}

/// Explicit hello -> hello-ack, with no payload attached.
///
/// Sending does not need this -- the first fragment introduces us by itself.
/// It answers "is anyone out there?" without committing to a transfer, which
/// is what you want when a link is not working.
pub struct Handshake {
    me: DeviceId,
    attempt: usize,
    phase: Phase,
    peer: DeviceId,
    wait: u64,
}

impl View for Handshake {
    type V = HandshakeView;

    closed spec fn view(&self) -> HandshakeView {
        HandshakeView {
            me: self.me,
            attempt: self.attempt as nat,
            phase: self.phase,
            peer: self.peer,
        }
    }
}

impl Handshake {
    /// How long to wait for each answer, in nanoseconds.
    pub closed spec fn patience(self) -> u64 {
        self.wait
    }

    fn hello_event(&self) -> (e: Event)
        ensures
            e@ == hello_note(self@.me, self@.attempt),
    {
        let mut note = "handshake ".to_owned();
        push_decimal(&mut note, self.attempt as u128);
        note.append("/");
        push_decimal(&mut note, HANDSHAKE_RETRIES as u128);
        note.append(": hello from ");
        push_hex4(&mut note, self.me);
        Event::Log(Level::Info, note)
    }

    pub(crate) fn start(me: DeviceId, wait: u64) -> (r: (Self, Vec<Event>))
        ensures
            r.0@ == (HandshakeView { me, attempt: 1, phase: Phase::Send, peer: BROADCAST }),
            r.0.patience() == wait,
            event::views(r.1@) == seq![hello_note(me, 1)],
    {
        let h = Handshake { me, attempt: 1, phase: Phase::Send, peer: BROADCAST, wait };
        let mut events = no_events();
        emit(&mut events, h.hello_event());
        assert(event::views(events@) =~= seq![hello_note(me, 1)]);
        (h, events)
    }

    pub fn phase(&self) -> (p: Phase)
        ensures
            p == self@.phase,
    {
        self.phase
    }

    /// Who answered; [`BROADCAST`] while nobody has.
    pub fn peer(&self) -> (id: DeviceId)
        ensures
            id == self@.peer,
    {
        self.peer
    }

    /// How long to wait for the answer, in nanoseconds.
    pub fn reply_wait(&self) -> (ns: u64)
        ensures
            ns == self.patience(),
    {
        self.wait
    }

    /// The frame to play now.
    pub fn frame(&self) -> (bytes: Vec<u8>)
        ensures
            bytes@ == framing::hello_bytes(T_HELLO, self@.me, BROADCAST),
            framing::parsed(bytes@) == Some(
                framing::FrameView::Ctrl(
                    (CtrlFrame {
                        kind: T_HELLO,
                        src: self@.me,
                        dst: 0,
                        msg_id: 0,
                        frag_idx: 0,
                    }),
                ),
            ),
    {
        proof {
            framing::hello_frames_round_trip(T_HELLO, self@.me, BROADCAST);
        }
        encode_hello(T_HELLO, self.me, BROADCAST)
    }

    /// The hello was played.
    pub fn sent(&mut self)
        requires
            old(self)@.phase == Phase::Send,
        ensures
            final(self)@ == (HandshakeView { phase: Phase::Await, ..old(self)@ }),
            final(self).patience() == old(self).patience(),
    {
        self.phase = Phase::Await;
    }

    /// A control frame arrived while an answer was awaited.
    pub fn on_ctrl(&mut self, c: &CtrlFrame) -> (events: Vec<Event>)
        requires
            old(self)@.phase == Phase::Await,
        ensures
            final(self)@ == greeted(old(self)@, *c).to,
            event::views(events@) == greeted(old(self)@, *c).events,
            final(self).patience() == old(self).patience(),
    {
        let mut events = no_events();
        if c.kind == T_HELLO_ACK && c.dst == self.me {
            let mut note = "peer ".to_owned();
            push_hex4(&mut note, c.src);
            note.append(" answered");
            emit(&mut events, Event::Log(Level::Info, note));
            if c.src != BROADCAST {
                emit(&mut events, Event::PeerChanged(c.src));
            }
            self.phase = Phase::Done;
            self.peer = c.src;
        } else {
            emit(&mut events, ignored_frame(c));
        }
        assert(event::views(events@) =~= greeted(old(self)@, *c).events);
        events
    }

    /// The time for an answer ran out.
    pub fn on_timeout(&mut self) -> (events: Vec<Event>)
        requires
            old(self)@.phase == Phase::Await,
        ensures
            final(self)@ == unanswered(old(self)@).to,
            event::views(events@) == unanswered(old(self)@).events,
            final(self).patience() == old(self).patience(),
    {
        let mut events = no_events();
        if self.attempt < HANDSHAKE_RETRIES {
            self.attempt = self.attempt + 1;
            self.phase = Phase::Send;
            emit(&mut events, self.hello_event());
        } else {
            self.phase = Phase::Done;
        }
        assert(event::views(events@) =~= unanswered(old(self)@).events);
        events
    }
}

/// An answer to us ends the discovery, whichever attempt it answers, and names the peer;
/// one from nobody ends it too, and names none. The last report of a peer is then the
/// one that answered.
pub proof fn any_answer_to_us_is_taken(h: HandshakeView, c: CtrlFrame, peer: DeviceId)
    requires
        c.kind == T_HELLO_ACK,
        c.dst == h.me,
    ensures
        greeted(h, c).to.phase == Phase::Done,
        greeted(h, c).to.peer == c.src,
        greeted(h, c).to.me == h.me,
        greeted(h, c).to.attempt == h.attempt,
        c.src != BROADCAST ==> peer_after(peer, greeted(h, c).events) == c.src,
        c.src == BROADCAST ==> peer_after(peer, greeted(h, c).events) == peer,
        greeted(h, c).events.len() == (if c.src == BROADCAST {
            1nat
        } else {
            2
        }),
{
    let e = greeted(h, c).events;
    if c.src == BROADCAST {
        assert(e.drop_last() =~= Seq::<event::EventView>::empty());
        assert(peer_after(peer, e.drop_last()) == peer);
    }
}

/// Any other control frame -- of another type, or for another device -- ends no
/// discovery, names nobody and is reported as ignored.
pub proof fn other_frames_end_no_discovery(h: HandshakeView, c: CtrlFrame, peer: DeviceId)
    requires
        c.kind != T_HELLO_ACK || c.dst != h.me,
    ensures
        greeted(h, c).to == h,
        greeted(h, c).events == seq![ignored(c)],
        peer_after(peer, greeted(h, c).events) == peer,
{
    let e = greeted(h, c).events;
    assert(e.drop_last() =~= Seq::<event::EventView>::empty());
    assert(peer_after(peer, e.drop_last()) == peer);
}

/// A discovery after so many hellos were played and not answered.
pub open spec fn unanswered_times(h: HandshakeView, n: nat) -> HandshakeView
    decreases n,
{
    if n == 0 {
        h
    } else {
        let before = unanswered_times(h, (n - 1) as nat);
        unanswered(HandshakeView { phase: Phase::Await, ..before }).to
    }
}

/// A discovery says hello three times before it ends with nobody; after the first and
/// the second silence it says hello again, and reports it. An answer to any of the three
/// is taken.
pub proof fn three_hellos_are_said(h: HandshakeView, n: nat, c: CtrlFrame)
    requires
        h.attempt == 1,
        h.phase == Phase::Send,
        h.peer == BROADCAST,
        n <= 3,
    ensures
        unanswered_times(h, n).me == h.me,
        unanswered_times(h, n).peer == BROADCAST,
        n < 3 ==> unanswered_times(h, n).phase == Phase::Send && unanswered_times(h, n).attempt
            == n + 1,
        n == 3 ==> unanswered_times(h, n).phase == Phase::Done,
        n < 3 && c.kind == T_HELLO_ACK && c.dst == h.me ==> greeted(
            HandshakeView { phase: Phase::Await, ..unanswered_times(h, n) },
            c,
        ).to.peer == c.src,
        n < 2 ==> unanswered(
            HandshakeView { phase: Phase::Await, ..unanswered_times(h, n) },
        ).events == seq![hello_note(h.me, n + 2)],
        n == 2 ==> unanswered(
            HandshakeView { phase: Phase::Await, ..unanswered_times(h, n) },
        ).events.len() == 0,
    decreases n,
{
    if n > 0 {
        three_hellos_are_said(h, (n - 1) as nat, c);
    }
}

/// An acknowledgement from a known peer changes no peer; one from a new peer is reported,
/// and nothing but that and the progress is.
pub proof fn acknowledgements_are_reported(t: TransferView, c: CtrlFrame, peer: DeviceId)
    requires
        acknowledges(c, t),
    ensures
        answered(t, c).events.len() == (if t.dst == BROADCAST {
            4nat
        } else {
            2
        }),
        t.dst != BROADCAST ==> peer_after(peer, answered(t, c).events) == peer,
        ({
            let e = answered(t, c).events;
            e[e.len() - 2] == event::EventView::Log(
                Level::Info,
                "frag "@ + (text::decimal((t.idx + 1) as nat) + "/"@ + text::decimal(
                    t.frags.len(),
                )) + " acked by "@ + text::hex4(c.src),
            )
        }),
{
    reveal_with_fuel(peer_after, 3);
}

/// An attempt that is not the last costs a warning and no peer. The last one is reported
/// as what it is: the peer is forgotten, the progress is gone, and an error says why.
pub proof fn timeouts_are_reported(t: TransferView, peer: DeviceId)
    requires
        sound(t),
        t.phase == Phase::Await,
    ensures
        ({
            let e = timed_out(t).events;
            let what = "frag "@ + (text::decimal((t.idx + 1) as nat) + "/"@ + text::decimal(
                t.frags.len(),
            ));
            &&& e[0] == event::EventView::Log(
                Level::Warn,
                what + " unacked (attempt "@ + text::decimal(t.attempt) + "/"@ + text::decimal(
                    t.retries,
                ) + ") -- resending"@,
            )
            &&& t.attempt < t.retries ==> e.len() == 1 && peer_after(peer, e) == peer
            &&& t.attempt == t.retries ==> e.len() == 4 && peer_after(peer, e) == BROADCAST
                && e[2] == (event::EventView::Progress { pct: 0, note: "TX failed"@ }) && e[3]
                == event::EventView::Log(
                Level::Error,
                what + " gave up after "@ + text::decimal(t.retries) + " attempts; message "@
                    + text::hex4(t.msg_id) + " is incomplete"@,
            )
        }),
{
    reveal_with_fuel(peer_after, 5);
}

/// The peer after two runs of reports is the one after the second, seen from the first;
/// and only a report of a peer names one.
pub proof fn the_last_report_names_the_peer(
    peer: DeviceId,
    a: Seq<event::EventView>,
    b: Seq<event::EventView>,
    e: event::EventView,
)
    ensures
        peer_after(peer, a + b) == peer_after(peer_after(peer, a), b),
        peer_after(peer, a.push(e)) == (match e {
            event::EventView::PeerChanged(id) => id,
            _ => peer_after(peer, a),
        }),
        peer_after(peer, Seq::empty()) == peer,
    decreases b.len(),
{
    assert(a.push(e).drop_last() =~= a);
    if b.len() == 0 {
        assert(a + b =~= a);
    } else {
        the_last_report_names_the_peer(peer, a, b.drop_last(), e);
        assert((a + b).drop_last() =~= a + b.drop_last());
        assert((a + b).last() == b.last());
    }
}

/// The header of the fragment in flight says what the transfer is, and counts its
/// fragments in two bytes.
pub proof fn headers_say_what_is_in_flight(t: TransferView)
    ensures
        ({
            let h = header_in_flight(t);
            &&& h.kind == t.kind
            &&& h.ack_req == t.arq
            &&& h.src == t.me
            &&& h.dst == t.dst
            &&& h.msg_id == t.msg_id
            &&& (h.frag_idx - t.idx) % 0x1_0000 == 0
            &&& (h.frag_total - t.frags.len()) % 0x1_0000 == 0
            &&& frame_in_flight(t) == h.bytes() + t.frags[t.idx as int]
        }),
{
}

/// What the log says of a hello and of a frame that was ignored.
pub proof fn the_log_tells_of_hellos(me: DeviceId, attempt: nat, c: CtrlFrame)
    ensures
        hello_note(me, attempt) == event::EventView::Log(
            Level::Info,
            "handshake "@ + text::decimal(attempt) + "/"@ + text::decimal(3) + ": hello from "@
                + text::hex4(me),
        ),
        ignored(c) == event::EventView::Log(
            Level::Warn,
            "ignored control frame "@ + text::hex_byte(c.kind) + " from "@ + text::hex4(c.src),
        ),
{
}

/// What the log says of whoever answered: a peer that names itself in its first
/// acknowledgement, and one that answers a hello.
pub proof fn the_log_tells_of_peers(t: TransferView, h: HandshakeView, c: CtrlFrame)
    ensures
        t.dst == BROADCAST && acknowledges(c, t) ==> answered(t, c).events[0]
            == event::EventView::PeerChanged(c.src) && answered(t, c).events[1]
            == event::EventView::Log(
            Level::Info,
            "peer "@ + text::hex4(c.src) + " identified itself in its ack"@,
        ),
        c.kind == T_HELLO_ACK && c.dst == h.me ==> greeted(h, c).events[0] == event::EventView::Log(
            Level::Info,
            "peer "@ + text::hex4(c.src) + " answered"@,
        ),
{
}

} // verus!

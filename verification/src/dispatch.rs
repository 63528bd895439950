//! What a link does with a decoded frame: answer it, hand it to the sending side,
//! or put it to the other fragments.
use crate::event;
use crate::event::{emit, no_events, Event, Level};
use crate::framing;
use crate::framing::{
    encode_ack, encode_hello, parse, CtrlFrame, DeviceId, FragHeader, Frame, BROADCAST, T_ACK,
    T_FILE, T_HELLO, T_HELLO_ACK, T_TEXT,
};
use crate::reassembly;
use crate::sender;
use crate::text;
use crate::text::{push_decimal, push_hex4};
use crate::trx;
use vstd::prelude::*;
use vstd::utf8;

verus! {

/// What is to be done with a frame, in this order.
pub struct Dispatch {
    /// What to report first.
    pub events: Vec<Event>,
    /// The frame to answer with, once the sender has had time to re-arm.
    pub reply: Option<Vec<u8>>,
    /// The control frame that whoever is waiting for one should see.
    pub hand_over: Option<CtrlFrame>,
    /// The fragment to put to the others, after the answer: the sender's clock is
    /// already running.
    pub fragment: Option<(FragHeader, Vec<u8>)>,
}

/// A [`Dispatch`] with its parts as sequences.
#[verifier::ext_equal]
pub struct DispatchView {
    pub events: Seq<event::EventView>,
    pub reply: Option<Seq<u8>>,
    pub hand_over: Option<CtrlFrame>,
    pub fragment: Option<(FragHeader, Seq<u8>)>,
}

impl View for Dispatch {
    type V = DispatchView;

    open spec fn view(&self) -> DispatchView {
        DispatchView {
            events: event::views(self.events@),
            reply: match self.reply {
                Some(b) => Some(b@),
                None => None,
            },
            hand_over: self.hand_over,
            fragment: match self.fragment {
                Some((hdr, frag)) => Some((hdr, frag@)),
                None => None,
            },
        }
    }
}

/// Nothing at all.
pub open spec fn nothing() -> DispatchView {
    DispatchView { events: Seq::empty(), reply: None, hand_over: None, fragment: None }
}

/// A frame with this destination is for `me`, or for everyone.
pub open spec fn for_us(dst: DeviceId, me: DeviceId) -> bool {
    dst == me || dst == BROADCAST
}

/// What a device does with a control frame.
///
/// A hello means that someone is about to transmit: the answer carries our own id,
/// so they know who they are talking to -- that id gates every later ack.
pub open spec fn on_ctrl(c: CtrlFrame, me: DeviceId) -> DispatchView {
    if c.kind == T_HELLO {
        if for_us(c.dst, me) {
            DispatchView {
                events: seq![
                    event::EventView::Log(
                        Level::Info,
                        "hello from "@ + text::hex4(c.src) + " -- answering as "@ + text::hex4(me),
                    ),
                    event::EventView::PeerChanged(c.src),
                ],
                reply: Some(framing::hello_bytes(T_HELLO_ACK, me, c.src)),
                ..nothing()
            }
        } else {
            nothing()
        }
    } else if c.dst == me || (c.kind == T_HELLO_ACK && c.dst == BROADCAST) {
        DispatchView { hand_over: Some(c), ..nothing() }
    } else {
        nothing()
    }
}

/// What a device does with a fragment.
///
/// One that asks to be acknowledged has its sender blocked until it hears from us.
/// A broadcast frame is acked too: that is how a sender that has never met us
/// learns our id.
pub open spec fn on_fragment(hdr: FragHeader, frag: Seq<u8>, me: DeviceId) -> DispatchView {
    if !for_us(hdr.dst, me) {
        DispatchView {
            events: seq![
                event::EventView::Log(
                    Level::Info,
                    "frag for "@ + text::hex4(hdr.dst) + ", not us -- ignored"@,
                ),
            ],
            ..nothing()
        }
    } else if hdr.ack_req {
        DispatchView {
            events: seq![event::EventView::PeerChanged(hdr.src)],
            reply: Some(framing::ack_bytes(me, hdr.src, hdr.msg_id, hdr.frag_idx)),
            hand_over: None,
            fragment: Some((hdr, frag)),
        }
    } else {
        DispatchView { fragment: Some((hdr, frag)), ..nothing() }
    }
}

/// What a device does with a decoded payload.
pub open spec fn dispatched(payload: Seq<u8>, me: DeviceId) -> DispatchView {
    match framing::parsed(payload) {
        None => DispatchView {
            events: seq![
                event::EventView::Log(
                    Level::Warn,
                    "frame decoded but is not a known message type"@,
                ),
            ],
            ..nothing()
        },
        Some(framing::FrameView::Ctrl(c)) => on_ctrl(c, me),
        Some(framing::FrameView::Data { hdr, payload }) => on_fragment(hdr, payload, me),
    }
}

/// What is reported once the answer was played, or why it was not.
pub open spec fn reply_notes(d: DispatchView, failure: Option<Seq<char>>) -> Seq<event::EventView> {
    match (d.fragment, failure) {
        (Some((hdr, _)), None) => seq![
            event::EventView::Log(
                Level::Info,
                "acked frag "@ + text::decimal((hdr.frag_idx + 1) as nat) + "/"@ + text::decimal(
                    hdr.frag_total as nat,
                ) + " to "@ + text::hex4(hdr.src),
            ),
        ],
        (Some(_), Some(why)) => seq![
            event::EventView::Log(Level::Error, "ack failed: "@ + why),
        ],
        (None, None) => Seq::empty(),
        (None, Some(why)) => seq![
            event::EventView::Log(Level::Error, "hello-ack failed: "@ + why),
        ],
    }
}

/// Decide what to do with one decoded payload: control traffic, or a data fragment.
pub fn handle_frame(payload: &[u8], me: DeviceId) -> (d: Dispatch)
    ensures
        d@ == dispatched(payload@, me),
        d.fragment matches Some((hdr, _)) ==> hdr.frag_idx < hdr.frag_total,
{
    proof {
        framing::accepted_fragments_are_numbered(payload@);
    }
    let mut events = no_events();
    let mut reply: Option<Vec<u8>> = None;
    let mut hand_over: Option<CtrlFrame> = None;
    let mut fragment: Option<(FragHeader, Vec<u8>)> = None;
    match parse(payload) {
        None => {
            emit(
                &mut events,
                Event::Log(
                    Level::Warn,
                    "frame decoded but is not a known message type".to_owned(),
                ),
            );
        },
        Some(Frame::Ctrl(c)) => {
            if c.kind == T_HELLO {
                if c.dst == me || c.dst == BROADCAST {
                    let mut note = "hello from ".to_owned();
                    push_hex4(&mut note, c.src);
                    note.append(" -- answering as ");
                    push_hex4(&mut note, me);
                    emit(&mut events, Event::Log(Level::Info, note));
                    emit(&mut events, Event::PeerChanged(c.src));
                    reply = Some(encode_hello(T_HELLO_ACK, me, c.src));
                }
            } else if c.dst == me || (c.kind == T_HELLO_ACK && c.dst == BROADCAST) {
                hand_over = Some(c);
            }
        },
        Some(Frame::Data { hdr, payload: frag }) => {
            if hdr.dst != me && hdr.dst != BROADCAST {
                let mut note = "frag for ".to_owned();
                push_hex4(&mut note, hdr.dst);
                note.append(", not us -- ignored");
                emit(&mut events, Event::Log(Level::Info, note));
            } else {
                if hdr.ack_req {
                    emit(&mut events, Event::PeerChanged(hdr.src));
                    reply = Some(encode_ack(me, hdr.src, hdr.msg_id, hdr.frag_idx));
                }
                fragment = Some((hdr, frag));
            }
        },
    }
    assert(event::views(events@) =~= dispatched(payload@, me).events);
    Dispatch { events, reply, hand_over, fragment }
}

impl Dispatch {
    /// The answer was played, or failed for this reason: what to report.
    pub fn replied(&self, failure: Option<&str>) -> (events: Vec<Event>)
        requires
            self.fragment matches Some((hdr, _)) ==> hdr.frag_idx < hdr.frag_total,
        ensures
            event::views(events@) == reply_notes(
                self@,
                match failure {
                    Some(why) => Some(why@),
                    None => None,
                },
            ),
    {
        let mut events = no_events();
        match (&self.fragment, failure) {
            (Some((hdr, _)), None) => {
                let mut note = "acked frag ".to_owned();
                push_decimal(&mut note, hdr.frag_idx as u128 + 1);
                note.append("/");
                push_decimal(&mut note, hdr.frag_total as u128);
                note.append(" to ");
                push_hex4(&mut note, hdr.src);
                emit(&mut events, Event::Log(Level::Info, note));
            },
            (Some(_), Some(why)) => {
                let mut note = "ack failed: ".to_owned();
                note.append(why);
                emit(&mut events, Event::Log(Level::Error, note));
            },
            (None, None) => {},
            (None, Some(why)) => {
                let mut note = "hello-ack failed: ".to_owned();
                note.append(why);
                emit(&mut events, Event::Log(Level::Error, note));
            },
        }
        assert(event::views(events@) =~= reply_notes(
            self@,
            match failure {
                Some(why) => Some(why@),
                None => None,
            },
        ));
        events
    }
}

// --------------------------------------------------------------------------- //
// What holds of every exchange
// --------------------------------------------------------------------------- //
/// Whom a frame is addressed to.
pub open spec fn addressee(f: framing::FrameView) -> DeviceId {
    match f {
        framing::FrameView::Ctrl(c) => c.dst,
        framing::FrameView::Data { hdr, .. } => hdr.dst,
    }
}

/// A frame addressed to someone else is dropped without a reply: nothing is
/// answered, handed over or delivered, and the peer stays who it was. So two pairs
/// can share a room without acking each other's traffic.
pub proof fn frames_for_others_are_dropped(payload: Seq<u8>, me: DeviceId, peer: DeviceId)
    requires
        framing::parsed(payload) matches Some(f) && addressee(f) != me && addressee(f)
            != BROADCAST,
    ensures
        dispatched(payload, me).reply is None,
        dispatched(payload, me).hand_over is None,
        dispatched(payload, me).fragment is None,
        sender::peer_after(peer, dispatched(payload, me).events) == peer,
{
    reveal_with_fuel(sender::peer_after, 2);
}

/// A data frame is acknowledged exactly where it is for us and asks for it, with
/// its own numbers and addressed to its sender.
pub proof fn acks_answer_requests_and_nothing_else(hdr: FragHeader, frag: Seq<u8>, me: DeviceId)
    ensures
        on_fragment(hdr, frag, me).reply is Some <==> hdr.ack_req && for_us(hdr.dst, me),
        on_fragment(hdr, frag, me).reply matches Some(bytes) ==> framing::parsed(bytes) == Some(
            framing::FrameView::Ctrl(
                (CtrlFrame {
                    kind: T_ACK,
                    src: me,
                    dst: hdr.src,
                    msg_id: hdr.msg_id,
                    frag_idx: hdr.frag_idx,
                }),
            ),
        ),
{
    framing::ack_frames_round_trip(me, hdr.src, hdr.msg_id, hdr.frag_idx);
}

/// The acknowledgement that a listener sends for a fragment is the one its sender
/// is waiting for, and the listener keeps the fragment as it was cut.
///
/// The listener is the one addressed, or everyone is. A message of more fragments
/// than two bytes can number is left out.
pub proof fn the_listeners_ack_advances_the_sender(t: sender::TransferView, listener: DeviceId)
    requires
        sender::sound(t),
        t.phase == sender::Phase::Send,
        t.arq,
        t.kind <= framing::TYPE_MASK,
        t.frags.len() <= 0xFFFF,
        t.dst == BROADCAST || t.dst == listener,
    ensures
        ({
            let d = dispatched(sender::frame_in_flight(t), listener);
            &&& d.fragment == Some((sender::header_in_flight(t), t.frags[t.idx as int]))
            &&& d.reply matches Some(ack)
            &&& framing::parsed(ack) matches Some(framing::FrameView::Ctrl(c))
            &&& on_ctrl(c, t.me).hand_over == Some(c)
            &&& sender::acknowledges(c, sender::played(t).to)
            &&& sender::answered(sender::played(t).to, c).to.idx == t.idx + 1
        }),
{
    let hdr = sender::header_in_flight(t);
    let frag = t.frags[t.idx as int];
    lemma_in_flight(t);
    acks_answer_requests_and_nothing_else(hdr, frag, listener);
    let d = dispatched(sender::frame_in_flight(t), listener);
    assert(d == on_fragment(hdr, frag, listener));
    let c = CtrlFrame {
        kind: T_ACK,
        src: listener,
        dst: t.me,
        msg_id: t.msg_id,
        frag_idx: hdr.frag_idx,
    };
    assert(framing::parsed(d.reply.unwrap()) == Some(framing::FrameView::Ctrl(c)));
}

/// The frame in flight says what it carries.
proof fn lemma_in_flight(t: sender::TransferView)
    requires
        t.idx < t.frags.len() <= 0xFFFF,
        t.kind <= framing::TYPE_MASK,
        t.arq || (t.kind != T_HELLO && t.kind != T_HELLO_ACK && t.kind != T_ACK),
    ensures
        sender::header_in_flight(t).frag_idx == t.idx,
        sender::header_in_flight(t).frag_total == t.frags.len(),
        framing::parsed(sender::frame_in_flight(t)) == Some(
            framing::FrameView::Data {
                hdr: sender::header_in_flight(t),
                payload: t.frags[t.idx as int],
            },
        ),
{
    framing::data_frames_round_trip(sender::header_in_flight(t), t.frags[t.idx as int]);
}

/// A message as a link in this state sends it.
pub open spec fn message_of(t: sender::TransferView) -> reassembly::Message {
    reassembly::Message { key: (t.me, t.msg_id), kind: t.kind, frags: t.frags }
}

/// Every frame of a transfer carries its message's fragment, as the receiving side
/// expects it.
pub proof fn frames_carry_genuine_fragments(t: sender::TransferView, listener: DeviceId, now: u64)
    requires
        sender::sound(t),
        t.phase == sender::Phase::Send,
        t.kind <= framing::TYPE_MASK,
        t.arq || (t.kind != T_HELLO && t.kind != T_HELLO_ACK && t.kind != T_ACK),
        t.frags.len() <= 0xFFFF,
        t.dst == BROADCAST || t.dst == listener,
    ensures
        dispatched(sender::frame_in_flight(t), listener).fragment matches Some((hdr, frag)) && hdr
            == sender::header_in_flight(t) && reassembly::genuine(
            (reassembly::Fragment { hdr, frag, now }),
            message_of(t),
        ) && hdr.frag_idx == t.idx,
{
    lemma_in_flight(t);
    assert(dispatched(sender::frame_in_flight(t), listener) == on_fragment(
        sender::header_in_flight(t),
        t.frags[t.idx as int],
        listener,
    ));
}

/// A text arrives as it was sent, exactly once: from whatever fragments come, in
/// any order and however often, among those of other messages, the user is told
/// the text when the last missing one is there.
pub proof fn texts_arrive_as_they_were_sent(
    v: trx::TransceiverView,
    text: Seq<char>,
    s: reassembly::ReassemblerView,
    run: Seq<reassembly::Fragment>,
    t0: u64,
)
    requires
        ({
            let m = message_of(trx::outgoing(v, T_TEXT, utf8::encode_utf8(text)));
            &&& reassembly::in_time(run, m, t0)
            &&& reassembly::unknown(s, m.key, t0)
            &&& reassembly::all_came(run, m)
        }),
    ensures
        ({
            let m = message_of(trx::outgoing(v, T_TEXT, utf8::encode_utf8(text)));
            &&& reassembly::deliveries(s, run, m.key) == seq![
                reassembly::Verdict::Complete(T_TEXT, utf8::encode_utf8(text)),
            ]
            &&& event::delivery(T_TEXT, utf8::encode_utf8(text)) == event::EventView::Text(text)
        }),
{
    let blob = utf8::encode_utf8(text);
    let m = message_of(trx::outgoing(v, T_TEXT, blob));
    sender::fragments_hold_the_message(blob);
    reassembly::messages_are_delivered_exactly_once(s, run, m, t0);
    utf8::encode_utf8_valid_utf8(text);
    utf8::encode_utf8_decode_utf8(text);
}

/// A file arrives as it was sent, exactly once, with its name and its contents.
///
/// A name longer than the metadata can hold, and contents longer than it can count,
/// are left out.
pub proof fn files_arrive_as_they_were_sent(
    v: trx::TransceiverView,
    name: Seq<char>,
    data: Seq<u8>,
    s: reassembly::ReassemblerView,
    run: Seq<reassembly::Fragment>,
    t0: u64,
)
    requires
        utf8::encode_utf8(name).len() <= 255,
        data.len() <= u32::MAX,
        ({
            let blob = framing::meta_bytes(utf8::encode_utf8(name), data.len() as u32) + data;
            let m = message_of(trx::outgoing(v, T_FILE, blob));
            &&& reassembly::in_time(run, m, t0)
            &&& reassembly::unknown(s, m.key, t0)
            &&& reassembly::all_came(run, m)
        }),
    ensures
        ({
            let blob = framing::meta_bytes(utf8::encode_utf8(name), data.len() as u32) + data;
            let m = message_of(trx::outgoing(v, T_FILE, blob));
            &&& reassembly::deliveries(s, run, m.key) == seq![
                reassembly::Verdict::Complete(T_FILE, blob),
            ]
            &&& event::delivery(T_FILE, blob) == event::EventView::File {
                name,
                size: data.len() as u32,
                data,
            }
        }),
{
    let blob = framing::meta_bytes(utf8::encode_utf8(name), data.len() as u32) + data;
    let m = message_of(trx::outgoing(v, T_FILE, blob));
    sender::fragments_hold_the_message(blob);
    reassembly::messages_are_delivered_exactly_once(s, run, m, t0);
    framing::file_messages_round_trip(name, data.len() as u32, data);
}

/// The fragment that completes a text ends its reports with the text.
pub proof fn the_last_fragment_tells_the_text(
    v: trx::TransceiverView,
    text: Seq<char>,
    s: reassembly::ReassemblerView,
    run: Seq<reassembly::Fragment>,
    t0: u64,
)
    requires
        run.len() > 0,
        ({
            let m = message_of(trx::outgoing(v, T_TEXT, utf8::encode_utf8(text)));
            &&& reassembly::in_time(run, m, t0)
            &&& reassembly::unknown(s, m.key, t0)
            &&& reassembly::all_came(run, m)
            &&& !reassembly::all_came(run.drop_last(), m)
        }),
    ensures
        reassembly::arrival_events(
            run.last().hdr,
            reassembly::last_verdict(s, run),
        ).last() == event::EventView::Text(text),
{
    let blob = utf8::encode_utf8(text);
    let m = message_of(trx::outgoing(v, T_TEXT, blob));
    sender::fragments_hold_the_message(blob);
    reassembly::the_last_missing_fragment_tells_the_message(s, run, m, t0);
    event::texts_are_told_whole(text);
}

/// The fragment that completes a file ends its reports with the file.
pub proof fn the_last_fragment_tells_the_file(
    v: trx::TransceiverView,
    name: Seq<char>,
    data: Seq<u8>,
    s: reassembly::ReassemblerView,
    run: Seq<reassembly::Fragment>,
    t0: u64,
)
    requires
        run.len() > 0,
        utf8::encode_utf8(name).len() <= 255,
        data.len() <= u32::MAX,
        ({
            let blob = framing::meta_bytes(utf8::encode_utf8(name), data.len() as u32) + data;
            let m = message_of(trx::outgoing(v, T_FILE, blob));
            &&& reassembly::in_time(run, m, t0)
            &&& reassembly::unknown(s, m.key, t0)
            &&& reassembly::all_came(run, m)
            &&& !reassembly::all_came(run.drop_last(), m)
        }),
    ensures
        reassembly::arrival_events(
            run.last().hdr,
            reassembly::last_verdict(s, run),
        ).last() == (event::EventView::File { name, size: data.len() as u32, data }),
{
    let blob = framing::meta_bytes(utf8::encode_utf8(name), data.len() as u32) + data;
    let m = message_of(trx::outgoing(v, T_FILE, blob));
    sender::fragments_hold_the_message(blob);
    reassembly::the_last_missing_fragment_tells_the_message(s, run, m, t0);
    event::files_are_told_whole(name, data);
}

/// Every hello to us or to everyone is answered, and the answer ends the discovery of
/// whoever said it, with us as the peer; and it becomes our peer. Nothing else comes of a
/// hello.
pub proof fn hellos_are_answered(
    payload: Seq<u8>,
    me: DeviceId,
    c: CtrlFrame,
    h: sender::HandshakeView,
    peer: DeviceId,
)
    requires
        framing::parsed(payload) == Some(framing::FrameView::Ctrl(c)),
        c.kind == T_HELLO,
        c.dst == me || c.dst == 0,
        h.me == c.src,
    ensures
        ({
            let d = dispatched(payload, me);
            &&& d.reply matches Some(answer) && framing::parsed(answer) matches Some(
                framing::FrameView::Ctrl(a),
            ) && a.kind == T_HELLO_ACK && a.src == me && a.dst == c.src && on_ctrl(
                a,
                c.src,
            ).hand_over == Some(a) && sender::greeted(h, a).to.peer == me
            &&& d.hand_over is None
            &&& d.fragment is None
            &&& sender::peer_after(peer, d.events) == c.src
        }),
{
    framing::hello_frames_round_trip(T_HELLO_ACK, me, c.src);
}

/// A control frame other than a hello is answered with nothing and changes no peer; it
/// is handed, as it came, to whoever waits for one exactly where it is addressed to us,
/// or answers a hello and is addressed to everyone.
pub proof fn answers_are_handed_over(
    payload: Seq<u8>,
    me: DeviceId,
    c: CtrlFrame,
    peer: DeviceId,
)
    requires
        framing::parsed(payload) == Some(framing::FrameView::Ctrl(c)),
        c.kind != T_HELLO,
    ensures
        ({
            let d = dispatched(payload, me);
            &&& d.hand_over == Some(c) <==> c.dst == me || (c.kind == T_HELLO_ACK && c.dst == 0)
            &&& d.hand_over is Some ==> d.hand_over == Some(c)
            &&& d.reply is None
            &&& d.fragment is None
            &&& d.events.len() == 0
            &&& sender::peer_after(peer, d.events) == peer
        }),
{
}

/// A fragment is kept, as it came, exactly where it is addressed to us or to everyone;
/// its sender becomes the peer exactly where it then asks to be acknowledged.
pub proof fn fragments_for_us_are_kept(
    payload: Seq<u8>,
    me: DeviceId,
    hdr: FragHeader,
    frag: Seq<u8>,
    peer: DeviceId,
)
    requires
        framing::parsed(payload) == Some(framing::FrameView::Data { hdr, payload: frag }),
    ensures
        ({
            let d = dispatched(payload, me);
            let ours = hdr.dst == me || hdr.dst == 0;
            &&& d.fragment == (if ours {
                Some((hdr, frag))
            } else {
                None
            })
            &&& d.hand_over is None
            &&& d.events.len() == (if ours && !hdr.ack_req {
                0nat
            } else {
                1
            })
            &&& d.reply is Some <==> ours && hdr.ack_req
            &&& sender::peer_after(peer, d.events) == (if ours && hdr.ack_req {
                hdr.src
            } else {
                peer
            })
        }),
{
    reveal_with_fuel(sender::peer_after, 2);
}

/// What is no frame is warned of, and nothing else comes of it.
pub proof fn what_is_no_frame_is_warned_of(payload: Seq<u8>, me: DeviceId)
    requires
        framing::parsed(payload) is None,
    ensures
        ({
            let d = dispatched(payload, me);
            &&& d.reply is None
            &&& d.hand_over is None
            &&& d.fragment is None
            &&& d.events.len() == 1
            &&& d.events[0] matches event::EventView::Log(Level::Warn, _)
        }),
{
}

/// What is reported of an answer: a fragment's sender is told of where it was played, and
/// every answer that was not is an error that says why.
pub proof fn failed_answers_are_errors(d: DispatchView, why: Seq<char>)
    ensures
        reply_notes(d, Some(why)).len() == 1,
        reply_notes(d, Some(why))[0] matches event::EventView::Log(Level::Error, note)
            && note.len() >= why.len() && note.skip(note.len() - why.len()) == why,
        reply_notes(d, None).len() == (if d.fragment is Some {
            1nat
        } else {
            0
        }),
        d.fragment is Some ==> (reply_notes(d, None)[0] matches event::EventView::Log(
            Level::Info,
            _,
        )),
{
    let (a, b) = ("ack failed: "@, "hello-ack failed: "@);
    assert((a + why).skip(a.len() as int) =~= why);
    assert((b + why).skip(b.len() as int) =~= why);
}

/// What the log says of a hello that is answered, of a fragment for someone else, and of
/// a fragment that was acknowledged.
pub proof fn the_log_tells_of_frames(c: CtrlFrame, hdr: FragHeader, frag: Seq<u8>, me: DeviceId)
    ensures
        c.kind == T_HELLO && (c.dst == me || c.dst == 0) ==> on_ctrl(c, me).events.len() == 2
            && on_ctrl(c, me).events[0] == event::EventView::Log(
            Level::Info,
            "hello from "@ + text::hex4(c.src) + " -- answering as "@ + text::hex4(me),
        ),
        hdr.dst != me && hdr.dst != 0 ==> on_fragment(hdr, frag, me).events == seq![
            event::EventView::Log(
                Level::Info,
                "frag for "@ + text::hex4(hdr.dst) + ", not us -- ignored"@,
            ),
        ],
        (hdr.dst == me || hdr.dst == 0) ==> reply_notes(on_fragment(hdr, frag, me), None) == seq![
            event::EventView::Log(
                Level::Info,
                "acked frag "@ + text::decimal((hdr.frag_idx + 1) as nat) + "/"@ + text::decimal(
                    hdr.frag_total as nat,
                ) + " to "@ + text::hex4(hdr.src),
            ),
        ],
{
}

} // verus!

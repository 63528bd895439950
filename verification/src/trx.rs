//! The state of a half-duplex link: who we are, whom we talk to, where and how.
//!
//! A [`Transceiver`] holds what both halves of a link share and decides what is
//! sent, what is answered and what is delivered. Playing and recording, and the
//! passing of time, are up to whoever holds the sound card.
use crate::band;
use crate::band::{Band, BandSet, DEFAULT_BAND};
use crate::dispatch;
use crate::dispatch::Dispatch;
use crate::event;
use crate::event::{emit, no_events};
use crate::framing;
use crate::framing::{
    encode_file_meta, DeviceId, FragHeader, ACK_HDR_LEN, BROADCAST, FRAG_HDR_LEN, FRAG_PAYLOAD,
    HELLO_HDR_LEN, T_FILE, T_TEXT,
};
use crate::packet;
use crate::packet::packet_samples;
use crate::profile;
use crate::profile::{Profile, DEFAULT_PROFILE};
use crate::reassembly;
use crate::reassembly::Reassembler;
use crate::sender;
use crate::sender::{budget, Handshake, Transfer, ARQ_RETRIES, REPLY_GUARD_S};
use crate::text;
use crate::text::{push_decimal, push_double, push_fixed, to_double, to_whole_double};
use crate::DETECT_THRESHOLD;
use vstd::arithmetic::power2;
use vstd::prelude::*;
use vstd::utf8;

pub use crate::event::{Event, Level};

verus! {

#[derive(Clone, Copy, Debug, PartialEq, Eq, Structural)]
pub enum RxState {
    Off,
    Search,
    Header,
    Body,
    Transmitting,
}

impl Default for RxState {
    fn default() -> (s: Self)
        ensures
            s == RxState::Off,
    {
        RxState::Off
    }
}

/// What the receiver has seen so far. Scores are ranks (see [`crate::chirp`]).
#[derive(Clone, Copy, Debug, PartialEq, Eq, Structural)]
pub struct Stats {
    pub state: RxState,
    pub peak_score: i32,
    pub peak_hold: i32,
    pub noise_score: i32,
    pub rx_ok: u64,
    pub rx_bad: u64,
    pub detections: u64,
    pub rejected: u64,
}

impl Default for Stats {
    fn default() -> (s: Self)
        ensures
            s == (Stats {
                state: RxState::Off,
                peak_score: 0,
                peak_hold: 0,
                noise_score: 0,
                rx_ok: 0,
                rx_bad: 0,
                detections: 0,
                rejected: 0,
            }),
    {
        Stats {
            state: RxState::Off,
            peak_score: 0,
            peak_hold: 0,
            noise_score: 0,
            rx_ok: 0,
            rx_bad: 0,
            detections: 0,
            rejected: 0,
        }
    }
}

#[derive(Debug)]
pub struct Config {
    pub active_band: String,
    pub active_profile: usize,
    /// Rank of the lowest score that counts as a preamble.
    pub detect_threshold: i32,
    pub arq: bool,
    pub arq_retries: usize,
}

/// A [`Config`] with the band's name as a sequence.
#[verifier::ext_equal]
pub struct ConfigView {
    pub active_band: Seq<char>,
    pub active_profile: usize,
    pub detect_threshold: i32,
    pub arq: bool,
    pub arq_retries: usize,
}

impl View for Config {
    type V = ConfigView;

    open spec fn view(&self) -> ConfigView {
        ConfigView {
            active_band: self.active_band@,
            active_profile: self.active_profile,
            detect_threshold: self.detect_threshold,
            arq: self.arq,
            arq_retries: self.arq_retries,
        }
    }
}

impl Default for Config {
    fn default() -> (c: Self)
        ensures
            c@ == (ConfigView {
                active_band: "ULTRA"@,
                active_profile: DEFAULT_PROFILE,
                detect_threshold: DETECT_THRESHOLD,
                arq: true,
                arq_retries: ARQ_RETRIES,
            }),
    {
        Config {
            active_band: DEFAULT_BAND.to_owned(),
            active_profile: DEFAULT_PROFILE,
            detect_threshold: DETECT_THRESHOLD,
            arq: true,
            arq_retries: ARQ_RETRIES,
        }
    }
}

impl Clone for Config {
    fn clone(&self) -> (c: Self)
        ensures
            c@ == self@,
    {
        Config {
            active_band: self.active_band.clone(),
            active_profile: self.active_profile,
            detect_threshold: self.detect_threshold,
            arq: self.arq,
            arq_retries: self.arq_retries,
        }
    }
}

// --------------------------------------------------------------------------- //
// The link
// --------------------------------------------------------------------------- //
/// The state of a [`Transceiver`].
#[verifier::ext_equal]
pub struct TransceiverView {
    pub bands: band::BandSetView,
    pub config: ConfigView,
    pub device_id: DeviceId,
    /// Whom we address; everyone, while nobody is known.
    pub peer_id: DeviceId,
    /// The receiver is on.
    pub running: bool,
    /// The last message id used.
    pub msg_id: u16,
    pub reasm: reassembly::ReassemblerView,
}

pub struct Transceiver {
    bands: BandSet,
    config: Config,
    device_id: DeviceId,
    peer_id: DeviceId,
    running: bool,
    msg_id: u16,
    reasm: Reassembler,
}

impl View for Transceiver {
    type V = TransceiverView;

    closed spec fn view(&self) -> TransceiverView {
        TransceiverView {
            bands: self.bands@,
            config: self.config@,
            device_id: self.device_id,
            peer_id: self.peer_id,
            running: self.running,
            msg_id: self.msg_id,
            reasm: self.reasm@,
        }
    }
}

/// The band in use.
pub open spec fn band_in_use(v: TransceiverView) -> Band {
    v.bands.bands[band::named(v.bands.bands, v.config.active_band).unwrap()]
}

/// The configured band is one that the link knows.
pub open spec fn band_is_known(v: TransceiverView) -> bool {
    band::named(v.bands.bands, v.config.active_band) is Some
}

/// A time of so many samples, of a second or more: the double nearest to it in
/// seconds, in units of 2^-52 seconds.
pub open spec fn fine_seconds(samples: int) -> nat {
    let (m, unit) = text::nearest_double(samples as nat, 48_000);
    m * (0x10_0000_0000_0000nat / unit)
}

/// The seconds of audio a message takes: the times of its packets, added up in
/// doubles one after the other, in units of 2^-52 seconds.
pub open spec fn audio_seconds(frags: Seq<Seq<u8>>, p: Profile, b: Band) -> nat
    decreases frags.len(),
{
    if frags.len() == 0 {
        0
    } else {
        text::whole_double(
            audio_seconds(frags.drop_last(), p, b) + fine_seconds(
                packet::packet_sample_count((frags.last().len() + FRAG_HDR_LEN) as int, p, b),
            ),
        )
    }
}

/// The report of a message that is about to be sent.
pub open spec fn tx_note(frags: Seq<Seq<u8>>, p: Profile, b: Band) -> event::EventView {
    event::EventView::Log(
        Level::Info,
        "TX "@ + text::decimal(frags.len()) + " frag(s) "@ + p.name@ + " @ "@ + text::double_text(
            b.base_freq as int,
            1_000_000,
            2,
        ) + " kHz ("@ + b.name@ + "), ~"@ + text::fixed_point(
            (10 * audio_seconds(frags, p, b)) as int,
            0x10_0000_0000_0000,
            1,
        ) + "s of audio"@,
    )
}

/// What is reported before a message is sent.
pub open spec fn tx_notes(v: TransceiverView, frags: Seq<Seq<u8>>) -> Seq<event::EventView> {
    let note = tx_note(
        frags,
        profile::profile_of(v.config.active_profile as int).unwrap(),
        band_in_use(v),
    );
    if v.config.arq && !v.running {
        seq![
            note,
            event::EventView::Log(
                Level::Warn,
                "ARQ needs RX on to hear ACKs -- sending blind"@,
            ),
        ]
    } else {
        seq![note]
    }
}

/// A message as it leaves a link in this state.
///
/// ACKs need our own receiver running to be heard. No separate hello: the first
/// fragment goes out addressed to whoever we last spoke to, or to everyone if
/// nobody yet, asking to be acked. The ack that comes back names the peer, so
/// introductions cost no air time of their own.
pub open spec fn outgoing(v: TransceiverView, kind: u8, blob: Seq<u8>) -> sender::TransferView {
    let arq = v.config.arq && v.running;
    sender::TransferView {
        kind,
        arq,
        me: v.device_id,
        dst: if arq {
            v.peer_id
        } else {
            BROADCAST
        },
        msg_id: ((v.msg_id + 1) % 0x1_0000) as u16,
        frags: sender::fragments(blob),
        retries: if arq && v.config.arq_retries > 1 {
            v.config.arq_retries as nat
        } else {
            1
        },
        idx: 0,
        attempt: 1,
        phase: sender::Phase::Send,
    }
}

/// A message that is ready to go out, and how.
pub struct Outgoing {
    pub transfer: Transfer,
    pub profile_id: usize,
    pub band: Band,
    pub events: Vec<Event>,
}

/// A search for a peer that is ready to begin, and how.
pub struct Discovery {
    pub handshake: Handshake,
    pub profile_id: usize,
    pub band: Band,
    pub events: Vec<Event>,
}

/// What [`Transceiver::send_text`] and [`Transceiver::send_file`] owe for a message.
pub open spec fn sends(
    before: TransceiverView,
    after: TransceiverView,
    r: Result<Outgoing, String>,
    kind: u8,
    blob: Seq<u8>,
    latency: u64,
) -> bool {
    match profile::profile_of(before.config.active_profile as int) {
        None => r matches Err(e) && e@ == "unknown profile"@ && after == before,
        Some(p) => {
            &&& r matches Ok(out)
            &&& out.transfer.wf()
            &&& out.transfer@ == outgoing(before, kind, blob)
            &&& out.transfer.patience() == sender::answer_budget(
                ACK_HDR_LEN as int,
                p,
                band_in_use(before),
                REPLY_GUARD_S as int,
                latency as int,
            )
            &&& out.profile_id == before.config.active_profile
            &&& out.band == band_in_use(before)
            &&& event::views(out.events@) == tx_notes(before, sender::fragments(blob))
            &&& after == TransceiverView { msg_id: outgoing(before, kind, blob).msg_id, ..before }
        },
    }
}

/// The report of a retune.
pub open spec fn retune_note(b: Band) -> event::EventView {
    event::EventView::Log(
        Level::Info,
        b.name@ + " retuned to "@ + text::double_text(b.base_freq as int, 1_000_000, 3)
            + " kHz (chirp "@ + text::double_text(b.signature().0, 1_000_000, 2) + "-"@
            + text::double_text(b.signature().1, 1_000_000, 2) + " kHz)"@ + (if b.base_freq
            < band::AUDIBLE_LIMIT {
            "  [AUDIBLE]"@
        } else {
            ""@
        }),
    )
}

impl Transceiver {
    pub closed spec fn wf(self) -> bool {
        self.reasm.wf()
    }

    pub fn new(device_id: DeviceId) -> (t: Self)
        ensures
            t.wf(),
            t@.bands.bands == seq![band::ultra(), band::audio()],
            t@.bands.revision == 0,
            t@.config == (ConfigView {
                active_band: "ULTRA"@,
                active_profile: DEFAULT_PROFILE,
                detect_threshold: DETECT_THRESHOLD,
                arq: true,
                arq_retries: ARQ_RETRIES,
            }),
            t@.device_id == device_id,
            t@.peer_id == BROADCAST,
            !t@.running,
            t@.msg_id == 0,
            t@.reasm.pending.dom().is_empty(),
            t@.reasm.delivered.dom().is_empty(),
    {
        Transceiver {
            bands: BandSet::default(),
            config: Config::default(),
            device_id,
            peer_id: BROADCAST,
            running: false,
            msg_id: 0,
            reasm: Reassembler::new(),
        }
    }

    // ---- accessors --------------------------------------------------------- //
    pub fn device_id(&self) -> (id: DeviceId)
        ensures
            id == self@.device_id,
    {
        self.device_id
    }

    pub fn set_device_id(&mut self, id: DeviceId) -> (r: Result<(), String>)
        requires
            old(self).wf(),
        ensures
            final(self).wf(),
            if id == BROADCAST {
                &&& r matches Err(e)
                &&& e@ == "0000 is the broadcast address, not a device id"@
                &&& final(self)@ == old(self)@
            } else {
                r is Ok && final(self)@ == (TransceiverView { device_id: id, ..old(self)@ })
            },
    {
        if id == BROADCAST {
            return Err("0000 is the broadcast address, not a device id".to_owned());
        }
        self.device_id = id;
        Ok(())
    }

    pub fn peer_id(&self) -> (id: DeviceId)
        ensures
            id == self@.peer_id,
    {
        self.peer_id
    }

    pub fn config(&self) -> (c: Config)
        ensures
            c@ == self@.config,
    {
        self.config.clone()
    }

    pub fn update_config(&mut self, c: Config)
        requires
            old(self).wf(),
        ensures
            final(self).wf(),
            final(self)@ == (TransceiverView { config: c@, ..old(self)@ }),
    {
        self.config = c;
    }

    pub fn bands(&self) -> (set: &BandSet)
        ensures
            set@ == self@.bands,
    {
        &self.bands
    }

    /// The band in use.
    pub fn active_band(&self) -> (b: Band)
        requires
            band_is_known(self@),
        ensures
            b == band_in_use(self@),
    {
        self.bands.expect(self.config.active_band.as_str())
    }

    /// Retune a band. Both ends must agree -- it is a channel, not a preference.
    /// A running receiver notices the revision bump and rebuilds its filters.
    pub fn set_frequency(&mut self, name: &str, hz: i64) -> (r: Result<(Band, Event), String>)
        requires
            old(self).wf(),
            old(self)@.bands.revision < u64::MAX,
        ensures
            final(self).wf(),
            match (band::freq_refusal(hz as int), band::named(old(self)@.bands.bands, name@)) {
                (Some(why), _) => r matches Err(e) && e@ == why && final(self)@ == old(self)@,
                (None, None) => r matches Err(e) && e@ == "unknown band "@ + text::debug_text(name@)
                    && final(self)@ == old(self)@,
                (None, Some(k)) => {
                    let tuned = old(self)@.bands.bands[k].retuned(hz as i32);
                    &&& r matches Ok((b, note))
                    &&& b == tuned
                    &&& tuned.base_freq == hz
                    &&& note@ == retune_note(tuned)
                    &&& final(self)@ == TransceiverView {
                        bands: band::BandSetView {
                            bands: old(self)@.bands.bands.update(k, tuned),
                            revision: (old(self)@.bands.revision + 1) as u64,
                        },
                        ..old(self)@
                    }
                },
            },
    {
        let b = match self.bands.set_base_freq(name, hz) {
            Ok(b) => b,
            Err(e) => {
                return Err(e);
            },
        };
        let mut note = b.name.to_owned();
        note.append(" retuned to ");
        push_double(&mut note, b.base_freq as i128, 1_000_000, 3);
        note.append(" kHz (chirp ");
        push_double(&mut note, b.chirp_f0() as i128, 1_000_000, 2);
        note.append("-");
        push_double(&mut note, b.chirp_f1() as i128, 1_000_000, 2);
        note.append(" kHz)");
        note.append(
            if b.audible() {
                "  [AUDIBLE]"
            } else {
                ""
            },
        );
        Ok((b, Event::Log(Level::Info, note)))
    }

    pub fn is_running(&self) -> (yes: bool)
        ensures
            yes == self@.running,
    {
        self.running
    }

    // ---- receiver lifecycle ------------------------------------------------ //
    /// Turn the receiver on; `true` if it was off, and capture has to begin.
    pub fn start_rx(&mut self) -> (begin: bool)
        requires
            old(self).wf(),
        ensures
            final(self).wf(),
            begin == !old(self)@.running,
            final(self)@ == (TransceiverView { running: true, ..old(self)@ }),
    {
        let begin: bool = !self.running;
        self.running = true;
        begin
    }

    /// Turn the receiver off.
    pub fn stop_rx(&mut self)
        requires
            old(self).wf(),
        ensures
            final(self).wf(),
            final(self)@ == (TransceiverView { running: false, ..old(self)@ }),
    {
        self.running = false;
    }

    /// The receiver ended by itself: it is off, and why is reported.
    pub fn rx_failed(&mut self, why: &str) -> (e: Event)
        requires
            old(self).wf(),
        ensures
            final(self).wf(),
            final(self)@ == (TransceiverView { running: false, ..old(self)@ }),
            e@ == event::EventView::Log(Level::Error, "RX stopped: "@ + why@),
    {
        self.running = false;
        let mut note = "RX stopped: ".to_owned();
        note.append(why);
        Event::Log(Level::Error, note)
    }

    /// Take note of what was reported: the peer is whoever the last such report
    /// names.
    pub fn note(&mut self, events: &[Event])
        requires
            old(self).wf(),
        ensures
            final(self).wf(),
            final(self)@ == (TransceiverView {
                peer_id: sender::peer_after(old(self)@.peer_id, event::views(events@)),
                ..old(self)@
            }),
    {
        let ghost all = event::views(events@);
        let ghost start = self@;
        let mut i: usize = 0;
        assert(all.take(0) =~= Seq::<event::EventView>::empty());
        while i < events.len()
            invariant
                i <= events@.len(),
                all == event::views(events@),
                self.wf(),
                self@ == (TransceiverView {
                    peer_id: sender::peer_after(start.peer_id, all.take(i as int)),
                    ..start
                }),
            decreases events@.len() - i,
        {
            assert(all.take(i + 1).drop_last() =~= all.take(i as int));
            assert(all.take(i + 1).last() == events@[i as int]@);
            if let Event::PeerChanged(id) = &events[i] {
                self.peer_id = *id;
            }
            i = i + 1;
        }
        assert(all.take(i as int) =~= all);
    }

    // ---- transmit ---------------------------------------------------------- //
    fn send_payload(&mut self, kind: u8, blob: Vec<u8>, latency: u64) -> (r: Result<
        Outgoing,
        String,
    >)
        requires
            old(self).wf(),
            band_is_known(old(self)@),
        ensures
            final(self).wf(),
            sends(old(self)@, final(self)@, r, kind, blob@, latency),
    {
        let pid: usize = self.config.active_profile;
        let b = self.active_band();
        let p = match profile::profile(pid) {
            Some(p) => p,
            None => {
                return Err("unknown profile".to_owned());
            },
        };
        let arq: bool = self.config.arq && self.running;
        let dst: DeviceId = if arq {
            self.peer_id
        } else {
            BROADCAST
        };
        let retries: usize = if arq && self.config.arq_retries > 1 {
            self.config.arq_retries
        } else {
            1
        };
        let mut events = no_events();
        emit(&mut events, announce(&blob, pid, &p, &b));
        if self.config.arq && !self.running {
            emit(
                &mut events,
                Event::Log(
                    Level::Warn,
                    "ARQ needs RX on to hear ACKs -- sending blind".to_owned(),
                ),
            );
        }
        assert(event::views(events@) =~= tx_notes(self@, sender::fragments(blob@)));
        let wait: u64 = budget(ACK_HDR_LEN, pid, &p, &b, REPLY_GUARD_S, latency);
        let mid: u16 = if self.msg_id == 0xFFFF {
            0
        } else {
            self.msg_id + 1
        };
        self.msg_id = mid;
        let transfer = Transfer::start(
            kind,
            arq,
            self.device_id,
            dst,
            mid,
            blob,
            retries,
            wait,
        );
        Ok(Outgoing { transfer, profile_id: pid, band: b, events })
    }

    /// Begin to send a text. `latency` is the device's round trip in nanoseconds.
    pub fn send_text(&mut self, text: &str, latency: u64) -> (r: Result<Outgoing, String>)
        requires
            old(self).wf(),
            band_is_known(old(self)@),
        ensures
            final(self).wf(),
            sends(old(self)@, final(self)@, r, T_TEXT, utf8::encode_utf8(text@), latency),
    {
        let mut blob: Vec<u8> = Vec::new();
        blob.extend_from_slice(text.as_bytes());
        assert(blob@ =~= utf8::encode_utf8(text@));
        self.send_payload(T_TEXT, blob, latency)
    }

    /// Begin to send a file's contents under its name. The size field has four
    /// bytes. `latency` is the device's round trip in nanoseconds.
    pub fn send_file(&mut self, name: &str, data: &[u8], latency: u64) -> (r: Result<
        Outgoing,
        String,
    >)
        requires
            old(self).wf(),
            band_is_known(old(self)@),
        ensures
            final(self).wf(),
            sends(
                old(self)@,
                final(self)@,
                r,
                T_FILE,
                framing::meta_bytes(
                    utf8::encode_utf8(name@),
                    (data@.len() % 0x1_0000_0000) as u32,
                ) + data@,
                latency,
            ),
    {
        let size: u32 = (data.len() as u64 % 0x1_0000_0000) as u32;
        let mut blob = encode_file_meta(name, size);
        let ghost meta = blob@;
        blob.extend_from_slice(data);
        assert(blob@ =~= meta + data@);
        self.send_payload(T_FILE, blob, latency)
    }

    /// Begin to look for a peer: explicit hello -> hello-ack, with no payload
    /// attached. `latency` is the device's round trip in nanoseconds.
    pub fn discover(&self, latency: u64) -> (r: Result<Discovery, String>)
        requires
            self@.running ==> band_is_known(self@),
        ensures
            match profile::profile_of(self@.config.active_profile as int) {
                _ if !self@.running => r matches Err(e) && e@
                    == "start RX first -- discovery must hear the reply"@,
                None => r matches Err(e) && e@ == "unknown profile"@,
                Some(p) => {
                    &&& r matches Ok(d)
                    &&& d.handshake@ == sender::HandshakeView {
                        me: self@.device_id,
                        attempt: 1,
                        phase: sender::Phase::Send,
                        peer: BROADCAST,
                    }
                    &&& d.handshake.patience() == sender::answer_budget(
                        HELLO_HDR_LEN as int,
                        p,
                        band_in_use(self@),
                        0,
                        latency as int,
                    )
                    &&& d.profile_id == self@.config.active_profile
                    &&& d.band == band_in_use(self@)
                    &&& event::views(d.events@) == seq![sender::hello_note(self@.device_id, 1)]
                },
            },
    {
        if !self.running {
            return Err("start RX first -- discovery must hear the reply".to_owned());
        }
        let pid: usize = self.config.active_profile;
        let b = self.active_band();
        let p = match profile::profile(pid) {
            Some(p) => p,
            None => {
                return Err("unknown profile".to_owned());
            },
        };
        let wait: u64 = budget(HELLO_HDR_LEN, pid, &p, &b, 0, latency);
        let (handshake, events) = Handshake::start(self.device_id, wait);
        Ok(Discovery { handshake, profile_id: pid, band: b, events })
    }
}

impl Transceiver {
    // ---- receive ----------------------------------------------------------- //
    /// Decide what to do with one decoded payload.
    pub fn handle_frame(&self, payload: &[u8]) -> (d: Dispatch)
        ensures
            d@ == dispatch::dispatched(payload@, self@.device_id),
            d.fragment matches Some((hdr, _)) ==> hdr.frag_idx < hdr.frag_total,
    {
        dispatch::handle_frame(payload, self.device_id)
    }

    /// Put a fragment to the others of its message, and say what happened.
    pub fn reassemble(&mut self, hdr: &FragHeader, frag: Vec<u8>, now: u64) -> (events: Vec<Event>)
        requires
            old(self).wf(),
            hdr.frag_idx < hdr.frag_total,
        ensures
            final(self).wf(),
            final(self)@ == (TransceiverView {
                reasm: reassembly::arrival(old(self)@.reasm, *hdr, frag@, now).state,
                ..old(self)@
            }),
            event::views(events@) == reassembly::arrival_events(
                *hdr,
                reassembly::arrival(old(self)@.reasm, *hdr, frag@, now).verdict,
            ),
    {
        self.reasm.reassemble(hdr, frag, now)
    }
}

/// The double nearest to a time, in units of 2^-52 seconds.
fn to_fine_seconds(samples: u64) -> (t: u128)
    requires
        samples < 0x8000_0000,
    ensures
        t == fine_seconds(samples as int),
        t <= 0x10_0000_0000_0000_0000,
{
    let (m, unit) = to_double(samples as u128, 48_000);
    let w: u128 = 0x10_0000_0000_0000 / unit;
    assert(unit * w <= 0x10_0000_0000_0000) by (nonlinear_arith)
        requires
            w == 0x10_0000_0000_0000u128 / unit,
            0 < unit,
    ;
    assert(w <= 0x10_0000_0000_0000) by (nonlinear_arith)
        requires
            unit * w <= 0x10_0000_0000_0000,
            0 < unit,
    ;
    assert((m * w) * 48_000 <= samples * (unit * w) + 48_000 * w) by (nonlinear_arith)
        requires
            m * 48_000 <= samples * unit + 48_000,
            0 <= w,
    ;
    assert(samples * (unit * w) <= 0x7FFF_FFFF * 0x10_0000_0000_0000) by (nonlinear_arith)
        requires
            samples <= 0x7FFF_FFFF,
            0 <= unit * w <= 0x10_0000_0000_0000,
    ;
    m as u128 * w
}

/// The report of a message that is about to be sent.
fn announce(blob: &Vec<u8>, pid: usize, p: &Profile, b: &Band) -> (e: Event)
    requires
        profile::profile_of(pid as int) == Some(*p),
    ensures
        e@ == tx_note(sender::fragments(blob@), *p, *b),
{
    let ghost frags = sender::fragments(blob@);
    let len: usize = blob.len();
    proof {
        sender::fragments_hold_the_message(blob@);
        lemma_sums_fit();
    }
    let total: usize = if len == 0 {
        1
    } else {
        packet::ceil_div(len, FRAG_PAYLOAD)
    };
    let mut seconds: u128 = 0;
    let mut left: usize = len;
    let mut i: usize = 0;
    while i < total
        invariant
            i <= total,
            frags == sender::fragments(blob@),
            len == blob@.len(),
            total == frags.len(),
            total == sender::fragment_count(len as int),
            left == if 48 * i < len {
                len - 48 * i
            } else {
                0
            },
            profile::profile_of(pid as int) == Some(*p),
            seconds == audio_seconds(frags.take(i as int), *p, *b),
            text::settled(seconds as nat),
        decreases total - i,
    {
        let n: usize = if left < FRAG_PAYLOAD {
            left
        } else {
            FRAG_PAYLOAD
        };
        proof {
            sender::lemma_fragment_count(len as int);
            assert(frags[i as int].len() == n);
            packet::lemma_table_sizes(pid as int, n + 11);
            assert(frags.take(i + 1).drop_last() =~= frags.take(i as int));
            assert(frags.take(i + 1).last() == frags[i as int]);
            lemma_sums_fit();
        }
        let more: u128 = to_fine_seconds(packet_samples(n + FRAG_HDR_LEN, p, b));
        proof {
            text::lemma_sums_end(seconds as nat, more as nat);
        }
        seconds = to_whole_double(seconds + more);
        left = left - n;
        i = i + 1;
    }
    assert(frags.take(i as int) =~= frags);
    proof {
        lemma_sums_fit();
    }
    let mut note = "TX ".to_owned();
    push_decimal(&mut note, total as u128);
    note.append(" frag(s) ");
    note.append(p.name);
    note.append(" @ ");
    push_double(&mut note, b.base_freq as i128, 1_000_000, 2);
    note.append(" kHz (");
    note.append(b.name);
    note.append("), ~");
    push_fixed(&mut note, 10 * seconds as i128, 0x10_0000_0000_0000, 1);
    note.append("s of audio");
    Event::Log(Level::Info, note)
}

proof fn lemma_sums_fit()
    ensures
        text::sums_end() == 0x0400_0000_0000_0000_0000_0000_0000_0000,
        power2::pow2(68) == 0x10_0000_0000_0000_0000,
        text::settled(0),
{
    power2::lemma2_to64();
    power2::lemma2_to64_rest();
    power2::lemma_pow2_adds(61, 61);
    power2::lemma_pow2_adds(4, 64);
    power2::lemma_pow2_pos(121);
}

// --------------------------------------------------------------------------- //
// What leaves a link
// --------------------------------------------------------------------------- //
/// A message leaves whole, from us, under the id behind the last one used; ids start over
/// behind the largest. It asks to be acknowledged exactly where that is configured and
/// our own receiver is on; then it goes to the peer, with as many attempts as are
/// configured and at least one, and else to everyone, once.
pub proof fn messages_leave_as_configured(v: TransceiverView, kind: u8, blob: Seq<u8>)
    ensures
        ({
            let t = outgoing(v, kind, blob);
            &&& t.kind == kind
            &&& t.me == v.device_id
            &&& reassembly::whole(t.frags) == blob
            &&& v.msg_id < 0xFFFF ==> t.msg_id == v.msg_id + 1
            &&& v.msg_id == 0xFFFF ==> t.msg_id == 0
            &&& t.arq <==> v.config.arq && v.running
            &&& t.dst == (if t.arq {
                v.peer_id
            } else {
                0
            })
            &&& t.retries >= 1
            &&& t.retries == 1 || (t.arq && t.retries == v.config.arq_retries)
            &&& t.arq ==> t.retries >= v.config.arq_retries
            &&& sender::sound(t)
            &&& t.phase == sender::Phase::Send
            &&& t.idx == 0
            &&& t.attempt == 1
        }),
{
    sender::fragments_hold_the_message(blob);
}

/// The link after so many more messages.
pub open spec fn after_messages(v: TransceiverView, n: nat) -> TransceiverView
    decreases n,
{
    if n == 0 {
        v
    } else {
        let before = after_messages(v, (n - 1) as nat);
        TransceiverView { msg_id: outgoing(before, T_TEXT, Seq::empty()).msg_id, ..before }
    }
}

/// No two of 65536 messages in a row have the same id.
pub proof fn message_ids_are_not_reused_soon(v: TransceiverView, i: nat, j: nat)
    requires
        i < j < i + 0x1_0000,
    ensures
        after_messages(v, i).msg_id != after_messages(v, j).msg_id,
{
    lemma_message_ids(v, i);
    lemma_message_ids(v, j);
}

proof fn lemma_message_ids(v: TransceiverView, n: nat)
    ensures
        after_messages(v, n).msg_id == (v.msg_id + n) % 0x1_0000,
    decreases n,
{
    if n > 0 {
        lemma_message_ids(v, (n - 1) as nat);
    }
}

/// A message is announced before it goes out; and there is a warning exactly where it was
/// meant to be acknowledged and nobody listens for that.
pub proof fn sending_blind_is_warned_of(v: TransceiverView, frags: Seq<Seq<u8>>)
    ensures
        ({
            let notes = tx_notes(v, frags);
            &&& notes[0] matches event::EventView::Log(Level::Info, _)
            &&& notes.len() == (if v.config.arq && !v.running {
                2nat
            } else {
                1
            })
            &&& notes.len() == 2 ==> (notes[1] matches event::EventView::Log(Level::Warn, _))
        }),
{
}

/// The band in use is the first one that has the configured name.
pub proof fn the_band_in_use_is_the_configured_one(v: TransceiverView)
    requires
        band_is_known(v),
    ensures
        band_in_use(v).name@ == v.config.active_band,
        v.bands.bands.contains(band_in_use(v)),
{
    band::lemma_named(v.bands.bands, v.config.active_band);
}

/// A message that is sent goes out in the configured profile and on the configured band,
/// and each of its acknowledgements is waited for as long as it takes on the air, with
/// 2.9 seconds and twice the latency on top. Nothing of the link changes but the last id
/// used. It is refused exactly where there is no such profile, and then nothing changes.
pub proof fn messages_go_out_as_configured(
    before: TransceiverView,
    after: TransceiverView,
    r: Result<Outgoing, String>,
    kind: u8,
    blob: Seq<u8>,
    latency: u64,
)
    requires
        sends(before, after, r, kind, blob, latency),
        band_is_known(before),
    ensures
        r is Ok <==> before.config.active_profile <= 2,
        r is Err ==> after == before,
        r matches Ok(out) ==> {
            let p = profile::profile_of(before.config.active_profile as int).unwrap();
            let wait = out.transfer.patience();
            let air = wait - 2_900_000_000 - 2 * latency;
            let samples = packet::packet_sample_count(9, p, out.band);
            &&& out.transfer.wf()
            &&& out.profile_id == before.config.active_profile
            &&& out.band.name@ == before.config.active_band
            &&& reassembly::whole(out.transfer@.frags) == blob
            &&& out.transfer@.kind == kind
            &&& after.msg_id == out.transfer@.msg_id
            &&& after.msg_id != before.msg_id
            &&& (TransceiverView { msg_id: before.msg_id, ..after }) == before
            &&& wait < u64::MAX ==> -24_000 <= 48_000 * air - 1_000_000_000 * samples <= 24_000
        },
{
    if let Some(p) = profile::profile_of(before.config.active_profile as int) {
        packet::lemma_table_sizes(before.config.active_profile as int, 9);
        messages_leave_as_configured(before, kind, blob);
        the_band_in_use_is_the_configured_one(before);
        sender::waits_hold_the_answer(9, p, band_in_use(before), 400_000_000, latency as nat);
    }
}

/// What is announced of a message: how many fragments, in which profile, at which
/// frequency and on which band, and how many seconds of audio that is.
pub proof fn the_log_tells_of_messages(frags: Seq<Seq<u8>>, p: Profile, b: Band)
    ensures
        tx_note(frags, p, b) == event::EventView::Log(
            Level::Info,
            "TX "@ + text::decimal(frags.len()) + " frag(s) "@ + p.name@ + " @ "@
                + text::double_text(b.base_freq as int, 1_000_000, 2) + " kHz ("@ + b.name@
                + "), ~"@ + text::fixed_point(
                (10 * audio_seconds(frags, p, b)) as int,
                0x10_0000_0000_0000,
                1,
            ) + "s of audio"@,
        ),
        retune_note(b) matches event::EventView::Log(Level::Info, note) && note.take(
            b.name@.len() as int,
        ) == b.name@,
{
    if let event::EventView::Log(_, note) = retune_note(b) {
        assert(note.take(b.name@.len() as int) =~= b.name@);
    }
}

/// The audio of one more fragment is the time of its packet more, but for what no double
/// can hold.
pub proof fn audio_adds_up(frags: Seq<Seq<u8>>, f: Seq<u8>, p: Profile, b: Band)
    ensures
        ({
            let sum = audio_seconds(frags, p, b) + fine_seconds(
                packet::packet_sample_count((f.len() + 11) as int, p, b),
            );
            let off = audio_seconds(frags.push(f), p, b) - sum;
            -(sum as int) <= 0x20_0000_0000_0000 * off <= sum
        }),
        audio_seconds(Seq::empty(), p, b) == 0,
{
    assert(frags.push(f).drop_last() =~= frags);
    assert(frags.push(f).last() == f);
    let sum = audio_seconds(frags, p, b) + fine_seconds(
        packet::packet_sample_count((f.len() + 11) as int, p, b),
    );
    text::doubles_keep_53_bits(sum);
}

/// A time of a second or more is held to one part in 2^52.
pub proof fn times_are_held_finely(samples: nat)
    requires
        48_000 <= samples < 0x8000_0000,
    ensures
        -(samples as int) <= 48_000 * fine_seconds(samples as int) - 0x10_0000_0000_0000 * samples
            <= samples,
{
    let (n, d) = (samples, 48_000nat);
    power2::lemma2_to64();
    power2::lemma2_to64_rest();
    text::nearest_doubles_are_near(n, d);
    let (m, u) = text::nearest_double(n, d);
    let j = text::lemma_widened_power(n, 0, d);
    assert(u == power2::pow2(j));
    assert(u < 0x20_0000_0000_0000) by (nonlinear_arith)
        requires
            n * u < 0x20_0000_0000_0000 * d,
            d <= n,
            0 < d,
    ;
    if j >= 53 {
        if j > 53 {
            power2::lemma_pow2_strictly_increases(53, j);
        }
        assert(false);
    }
    power2::lemma_pow2_adds((52 - j) as nat, j);
    let w = power2::pow2((52 - j) as nat);
    assert(0x10_0000_0000_0000nat / u == w) by {
        vstd::arithmetic::div_mod::lemma_fundamental_div_mod_converse(
            0x10_0000_0000_0000,
            u as int,
            w as int,
            0,
        );
    }
    let f = fine_seconds(samples as int);
    assert(f == m * w);
    assert(d * w <= 2 * n) by (nonlinear_arith)
        requires
            w * u == 0x10_0000_0000_0000,
            0x10_0000_0000_0000 <= m,
            2 * (m * d - n * u) <= d,
            d <= n,
            0 < u,
            0 < d,
    ;
    assert(-(d * w) <= 2 * (d * (m * w) - n * (w * u)) <= d * w) by (nonlinear_arith)
        requires
            -(d as int) <= 2 * (m * d - n * u) <= d,
            0 <= w,
    ;
}

/// What the log says of a retune: where the band now is, where its chirp, and that it can
/// be heard where it can.
pub proof fn the_log_tells_of_retunes(b: Band)
    ensures
        retune_note(b) == event::EventView::Log(
            Level::Info,
            b.name@ + " retuned to "@ + text::double_text(b.base_freq as int, 1_000_000, 3)
                + " kHz (chirp "@ + text::double_text(b.base_freq - b.lead, 1_000_000, 2) + "-"@
                + text::double_text(b.base_freq + b.span, 1_000_000, 2) + " kHz)"@ + (if b.base_freq
                < 17_000_000 {
                "  [AUDIBLE]"@
            } else {
                ""@
            }),
        ),
{
}

} // verus!

//! The streaming receiver: a state machine over an absolutely-indexed sample
//! buffer.
//!
//! ```text
//! SEARCH -> matched-filter the chirp preamble over every new sample window
//! HEADER -> once enough samples past the chirp have ARRIVED, read the 6-byte
//!           header (fine-sync search + per-profile trial) to learn the length
//! BODY   -> wait for the rest of the frame to arrive, then decode and CRC it
//! ```
//!
//! Waiting for *arrival* is the whole point: a frame is seconds of wall-clock
//! audio, so a receiver that decodes the instant it sees a preamble is reading a
//! buffer that does not contain the data yet.
//!
//! The machine keeps the positions; the samples themselves are with whoever drives
//! it, who appends what is admitted, drops what the machine says, and hands in
//! scores and demodulated bits.
use crate::band::Band;
use crate::chirp;
use crate::chirp::{
    higher_score, median, push_score, score_above, strongest, PeakTrial, PreambleDetector,
};
use crate::event;
use crate::event::{emit, no_events, Event, Level};
use crate::fec;
use crate::framing::{FRAG_HDR_LEN, FRAG_PAYLOAD};
use crate::ms_samples;
use crate::packet;
use crate::packet::{
    decode_frame, decode_header, default_sync_offsets, frame_samples, header_symbols, list_probes,
    push_confidence, span_samples, DecodeResult, Probe,
};
use crate::profile;
use crate::profile::{profiles_preferring, PROFILE_COUNT};
use crate::text;
use crate::text::{push_decimal, push_double, to_whole_double};
use crate::trx::{RxState, Stats};
use crate::{GAP_MS, LEAD_GUARD_MS, SAMPLE_RATE};
use vstd::prelude::*;

verus! {

/// Only run the matched filter once this much audio is new.
pub const MIN_SEARCH_NEW: usize = 4096;

/// The farthest fine-sync offset, in samples.
pub const MAX_OFF: i64 = 180;

/// The largest frame a receiver admits: a full fragment with its header.
pub const MAX_PAYLOAD: usize = FRAG_PAYLOAD + FRAG_HDR_LEN;

/// Samples the receiver's clock can count.
pub const CLOCK_LIMIT: i64 = 0x4000_0000_0000_0000;

// --------------------------------------------------------------------------- //
// Sizes
// --------------------------------------------------------------------------- //
/// The fine-sync offsets of a live receiver.
pub open spec fn offsets() -> Seq<isize> {
    packet::sync_order(4_000, 750)
}

/// The fine-sync offsets reach as far as [`MAX_OFF`] either way, and no farther.
pub proof fn fine_sync_range(i: int)
    requires
        0 <= i < offsets().len(),
    ensures
        offsets().len() == 11,
        -MAX_OFF <= offsets()[i] <= MAX_OFF,
        offsets()[9] == MAX_OFF,
        offsets()[10] == -MAX_OFF,
{
    assert(crate::samples_in(4_000) == 192);
    assert(packet::sync_step(750) == 36);
    let step = packet::sync_step(750);
    assert(192int / step == 5) by (nonlinear_arith)
        requires
            step == 36,
    ;
    assert(packet::sync_reach(4_000, 750) == 5);
}

/// Samples the header of a profile takes.
pub open spec fn header_span(id: int) -> int {
    match profile::profile_of(id) {
        Some(p) => packet::symbols_span(packet::header_symbol_count(p), p),
        None => 0,
    }
}

/// The longest header among these profiles.
pub open spec fn longest_header(ids: Seq<usize>) -> int
    decreases ids.len(),
{
    if ids.len() == 0 {
        0
    } else {
        packet::larger(longest_header(ids.drop_last()), header_span(ids.last() as int))
    }
}

/// The longest frame of the first `n` profiles that a receiver admits.
pub open spec fn longest_frame(n: nat) -> int
    decreases n,
{
    if n == 0 {
        0
    } else {
        packet::larger(
            longest_frame((n - 1) as nat),
            packet::frame_sample_count(
                MAX_PAYLOAD as int,
                profile::profile_of(n - 1).unwrap(),
            ),
        )
    }
}

/// Samples the receiver holds on to: the longest frame and three seconds.
pub open spec fn max_hold() -> int {
    longest_frame(PROFILE_COUNT as nat) + 3 * SAMPLE_RATE
}

proof fn lemma_small_frames(id: int, len: int)
    requires
        profile::profile_of(id) is Some,
        0 <= len <= MAX_PAYLOAD,
    ensures
        0 <= packet::frame_sample_count(len, profile::profile_of(id).unwrap()) <= 1_451_520,
        0 <= header_span(id) <= 120_960,
{
    packet::lemma_table_sizes(id, len);
    packet::lemma_padded_len(len);
    let p = profile::profile_of(id).unwrap();
    let n = packet::frame_symbol_count(len, p);
    let step = p.step_len();
    assert(n == (14 * packet::padded_len(len) + 1) / 2);
    assert(n <= 504);
    assert((n - 1) * step <= 503 * 2880) by (nonlinear_arith)
        requires
            0 < n <= 504,
            0 < step <= 2880,
    ;
}

proof fn lemma_longest_header(ids: Seq<usize>)
    ensures
        0 <= longest_header(ids) <= 120_960,
        forall|i: int| 0 <= i < ids.len() ==> header_span((#[trigger] ids[i]) as int) <= longest_header(
            ids,
        ),
    decreases ids.len(),
{
    if ids.len() > 0 {
        let rest = ids.drop_last();
        lemma_longest_header(rest);
        let last = ids.last() as int;
        if profile::profile_of(last) is Some {
            lemma_small_frames(last, 0);
        }
        assert forall|i: int| 0 <= i < ids.len() implies header_span((#[trigger] ids[i]) as int)
            <= longest_header(ids) by {
            if i < rest.len() {
                assert(rest[i] == ids[i]);
            }
        }
    }
}

proof fn lemma_longest_frame(n: nat)
    requires
        n <= PROFILE_COUNT,
    ensures
        0 <= longest_frame(n) <= 1_451_520,
        forall|id: int|
            0 <= id < n ==> packet::frame_sample_count(
                MAX_PAYLOAD as int,
                (#[trigger] profile::profile_of(id)).unwrap(),
            ) <= longest_frame(n),
    decreases n,
{
    if n > 0 {
        lemma_longest_frame((n - 1) as nat);
        assert(profile::profile_of(n - 1) is Some);
        lemma_small_frames(n - 1, MAX_PAYLOAD as int);
    }
}

/// Samples of the longest frame a receiver admits, in the slowest profile.
pub fn max_frame_samples() -> (n: usize)
    ensures
        n == longest_frame(PROFILE_COUNT as nat),
        n <= 1_451_520,
{
    let mut longest: usize = 0;
    let mut id: usize = 0;
    while id < PROFILE_COUNT
        invariant
            id <= PROFILE_COUNT,
            longest == longest_frame(id as nat),
            longest <= 1_451_520,
        decreases PROFILE_COUNT - id,
    {
        proof {
            lemma_longest_frame((id + 1) as nat);
            assert(profile::profile_of(id as int) is Some);
            packet::lemma_table_sizes(id as int, MAX_PAYLOAD as int);
        }
        if let Some(p) = profile::profile(id) {
            let n: usize = frame_samples(MAX_PAYLOAD, &p);
            if n > longest {
                longest = n;
            }
        }
        id = id + 1;
    }
    longest
}

fn header_samples(ids: &[usize]) -> (n: usize)
    ensures
        n == longest_header(ids@),
        n <= 120_960,
{
    let mut longest: usize = 0;
    let mut i: usize = 0;
    assert(ids@.take(0) =~= Seq::<usize>::empty());
    while i < ids.len()
        invariant
            i <= ids@.len(),
            longest == longest_header(ids@.take(i as int)),
            longest <= 120_960,
        decreases ids@.len() - i,
    {
        let ghost front = ids@.take(i + 1);
        assert(front.drop_last() =~= ids@.take(i as int));
        assert(front.last() == ids@[i as int]);
        proof {
            lemma_longest_header(front);
            lemma_longest_header(ids@.take(i as int));
        }
        if let Some(p) = profile::profile(ids[i]) {
            proof {
                packet::lemma_table_sizes(ids@[i as int] as int, 0);
            }
            let n: usize = span_samples(header_symbols(&p), &p);
            if n > longest {
                longest = n;
            }
        }
        i = i + 1;
    }
    assert(ids@.take(i as int) =~= ids@);
    longest
}

// --------------------------------------------------------------------------- //
// The machine
// --------------------------------------------------------------------------- //
/// The state of an [`RxMachine`]. Positions count samples since the receiver was
/// started.
#[verifier::ext_equal]
pub struct RxView {
    /// The position of the first sample held.
    pub origin: int,
    /// How many samples are held.
    pub held: int,
    /// The position of the next window to filter.
    pub search: int,
    pub state: RxState,
    /// The band of the preamble found, or the one in use.
    pub band: Band,
    /// Where the data of the frame begins.
    pub data_start: int,
    /// The profile, offset and length that the header gave.
    pub lock_pid: usize,
    pub lock_off: int,
    pub lock_len: usize,
    /// The position up to which samples must have arrived.
    pub need: int,
    /// The profiles to try, in order.
    pub cands: Seq<usize>,
    /// The revision of the bands the filters were built for.
    pub revision: u64,
    /// Something may still be owed to the last block of samples.
    pub fresh: bool,
    pub stats: Stats,
}

impl RxView {
    /// The position behind the last sample held.
    pub open spec fn total(self) -> int {
        self.origin + self.held
    }

    /// All that the state waits for has arrived.
    pub open spec fn due(self) -> bool {
        (self.state == RxState::Header || self.state == RxState::Body) && self.total() >= self.need
    }

    /// The first sample of the frame, counted from the first sample held.
    pub open spec fn base(self) -> int {
        self.data_start - self.origin
    }

    /// What holds of every machine between two calls.
    pub open spec fn sound(self) -> bool {
        &&& 0 <= self.origin
        &&& 0 <= self.held <= isize::MAX / 4
        &&& self.total() <= CLOCK_LIMIT
        &&& -CLOCK_LIMIT <= self.search <= CLOCK_LIMIT + 0x1_0000_0000
        &&& self.state == RxState::Search || self.state == RxState::Header || self.state
            == RxState::Body
        &&& !self.fresh ==> !self.due()
        &&& self.state != RxState::Search ==> {
            &&& 0 <= self.data_start <= CLOCK_LIMIT + 0x1000_0000
            &&& self.data_start + MAX_OFF <= self.need <= self.data_start + 1_500_000
            &&& -self.base() <= 1_500_000 + isize::MAX / 4
        }
        &&& self.state == RxState::Header ==> self.need == self.data_start + MAX_OFF
            + longest_header(self.cands)
        &&& self.state == RxState::Body ==> {
            &&& profile::profile_of(self.lock_pid as int) is Some
            &&& self.lock_len <= MAX_PAYLOAD
            &&& -MAX_OFF <= self.lock_off <= MAX_OFF
            &&& self.need == self.data_start + MAX_OFF + packet::frame_sample_count(
                self.lock_len as int,
                profile::profile_of(self.lock_pid as int).unwrap(),
            )
        }
    }
}

/// A streaming receiver.
pub struct RxMachine {
    origin: i64,
    held: usize,
    search: i64,
    state: RxState,
    band: Band,
    data_start: i64,
    lock_pid: usize,
    lock_off: i64,
    lock_len: usize,
    need: i64,
    cands: Vec<usize>,
    revision: u64,
    fresh: bool,
    stats: Stats,
}

impl View for RxMachine {
    type V = RxView;

    closed spec fn view(&self) -> RxView {
        RxView {
            origin: self.origin as int,
            held: self.held as int,
            search: self.search as int,
            state: self.state,
            band: self.band,
            data_start: self.data_start as int,
            lock_pid: self.lock_pid,
            lock_off: self.lock_off as int,
            lock_len: self.lock_len,
            need: self.need as int,
            cands: self.cands@,
            revision: self.revision,
            fresh: self.fresh,
            stats: self.stats,
        }
    }
}

/// What becomes of a block of samples.
#[derive(Clone, Copy, Debug, PartialEq, Eq, Structural)]
pub enum Intake {
    /// The bands moved: the block and everything held are gone, and the filters are
    /// to be built anew.
    Retuned,
    /// We were the one making noise: the block and everything held are gone. Where
    /// the transmission is over, it is now dealt with.
    Muted { rearmed: bool },
    /// The block is appended; then this many samples are dropped from the front.
    Admitted { drop: usize },
}

/// What is owed to a block of samples that was taken in.
#[derive(Clone, Copy, Debug, PartialEq, Eq, Structural)]
pub enum NextStep {
    /// A pass of the matched filters, see [`RxMachine::begin_search`].
    Search,
    /// The header is to be read, see [`RxMachine::begin_header`].
    Header,
    /// The frame is to be read, see [`RxMachine::begin_body`].
    Body,
    /// How much of the frame is there is to be told, see [`RxMachine::progress`].
    Progress,
    /// Nothing.
    Rest,
}

/// What a receiver in this state owes: to each block one pass while it searches; then,
/// or later, the header once it has arrived; then, or later, the frame once it has
/// arrived, and word of its progress until then. What ends a block's work -- a pass
/// without a preamble, a header that would not decode, a frame -- leaves the rest of
/// the audio to the next block.
pub open spec fn owed(v: RxView) -> NextStep {
    if !v.fresh {
        NextStep::Rest
    } else if v.state == RxState::Search {
        NextStep::Search
    } else if v.state == RxState::Header && v.due() {
        NextStep::Header
    } else if v.state == RxState::Body && v.due() {
        NextStep::Body
    } else if v.state == RxState::Body {
        NextStep::Progress
    } else {
        NextStep::Rest
    }
}

/// The state after everything held and `chunk` samples more were thrown away.
///
/// Absolute positions are our own bookkeeping, so skipping samples outright stays
/// consistent.
pub open spec fn skipped(v: RxView, chunk: int) -> RxView {
    RxView {
        origin: v.total() + chunk,
        held: 0,
        search: v.total() + chunk,
        state: RxState::Search,
        fresh: false,
        ..v
    }
}

/// The first position that is still of use: in SEARCH a lead-guard of history
/// behind the cursor, so that the run-up to a candidate at the very start of the
/// window can be inspected; else the earliest fine-sync offset.
pub open spec fn still_wanted(v: RxView) -> int {
    if v.state == RxState::Search {
        v.search - crate::samples_in(LEAD_GUARD_MS as int)
    } else {
        v.data_start - MAX_OFF
    }
}

/// The first position that is kept once the samples reach `total`.
pub open spec fn kept_from(v: RxView, total: int) -> int {
    let wanted = if still_wanted(v) < total {
        still_wanted(v)
    } else {
        total
    };
    packet::larger(packet::larger(wanted, total - max_hold()), 0)
}

/// The state after a block was appended and the front trimmed.
pub open spec fn admitted(v: RxView, chunk: int) -> RxView {
    let total = v.total() + chunk;
    let origin = packet::larger(kept_from(v, total), v.origin);
    RxView { origin, held: total - origin, fresh: true, ..v }
}

/// What a block of samples does.
pub open spec fn taken_in(
    v: RxView,
    chunk: int,
    revision: u64,
    active: Band,
    transmitting: bool,
    rearm: bool,
) -> (RxView, Intake) {
    if revision != v.revision {
        (RxView { revision, band: active, ..skipped(v, chunk) }, Intake::Retuned)
    } else if transmitting || rearm {
        (
            RxView {
                stats: Stats {
                    state: if transmitting {
                        RxState::Transmitting
                    } else {
                        RxState::Search
                    },
                    ..v.stats
                },
                ..skipped(v, chunk)
            },
            Intake::Muted { rearmed: !transmitting },
        )
    } else {
        let after = admitted(v, chunk);
        (after, Intake::Admitted { drop: (after.origin - v.origin) as usize })
    }
}

/// What is reported of a block of samples.
pub open spec fn intake_notes(i: Intake) -> Seq<event::EventView> {
    if i == Intake::Retuned {
        seq![event::EventView::Log(Level::Info, "retuned -- matched filters rebuilt"@)]
    } else {
        Seq::empty()
    }
}

/// What is reported when the receiver starts.
pub open spec fn listening_note(threshold: i32) -> event::EventView {
    event::EventView::Log(
        Level::Info,
        "RX listening @ "@ + text::decimal(SAMPLE_RATE as nat) + " Hz (threshold "@
            + chirp::score_text(threshold) + ")"@,
    )
}

impl RxMachine {
    pub closed spec fn wf(self) -> bool {
        self@.sound()
    }

    /// Start to listen.
    pub fn new(active: Band, revision: u64, threshold: i32, stats: Stats) -> (r: (Self, Event))
        ensures
            r.0.wf(),
            r.0@ == (RxView {
                origin: 0,
                held: 0,
                search: 0,
                state: RxState::Search,
                band: active,
                data_start: 0,
                lock_pid: 0,
                lock_off: 0,
                lock_len: 0,
                need: 0,
                cands: Seq::empty(),
                revision,
                fresh: false,
                stats: Stats { state: RxState::Search, ..stats },
            }),
            r.1@ == listening_note(threshold),
    {
        let mut note = "RX listening @ ".to_owned();
        push_decimal(&mut note, SAMPLE_RATE as u128);
        note.append(" Hz (threshold ");
        push_score(&mut note, threshold);
        note.append(")");
        let mut stats = stats;
        stats.state = RxState::Search;
        let cands: Vec<usize> = Vec::new();
        assert(cands@ =~= Seq::<usize>::empty());
        let m = RxMachine {
            origin: 0,
            held: 0,
            search: 0,
            state: RxState::Search,
            band: active,
            data_start: 0,
            lock_pid: 0,
            lock_off: 0,
            lock_len: 0,
            need: 0,
            cands,
            revision,
            fresh: false,
            stats,
        };
        (m, Event::Log(Level::Info, note))
    }

    pub fn state(&self) -> (s: RxState)
        ensures
            s == self@.state,
    {
        self.state
    }

    pub fn stats(&self) -> (s: Stats)
        ensures
            s == self@.stats,
    {
        self.stats
    }

    /// The band that is being received.
    pub fn band(&self) -> (b: Band)
        ensures
            b == self@.band,
    {
        self.band
    }

    /// How many samples are held.
    pub fn held(&self) -> (n: usize)
        ensures
            n == self@.held,
    {
        self.held
    }

    /// Everything that the state waits for has arrived.
    pub fn due(&self) -> (yes: bool)
        requires
            self.wf(),
        ensures
            yes == self@.due(),
    {
        (self.state == RxState::Header || self.state == RxState::Body) && self.origin
            + self.held as i64 >= self.need
    }

    /// What is owed to the last block of samples. When nothing is, the next may come.
    pub fn next_step(&self) -> (s: NextStep)
        requires
            self.wf(),
        ensures
            s == owed(self@),
            s == NextStep::Rest ==> !self@.due(),
    {
        let due: bool = self.due();
        if !self.fresh {
            NextStep::Rest
        } else {
            match self.state {
                RxState::Search => NextStep::Search,
                RxState::Header => if due {
                    NextStep::Header
                } else {
                    NextStep::Rest
                },
                RxState::Body => if due {
                    NextStep::Body
                } else {
                    NextStep::Progress
                },
                _ => NextStep::Rest,
            }
        }
    }

    /// Take a block of samples: decide whether it is heard at all, and how much of
    /// what is held can go.
    ///
    /// What was due before is done before the next block comes, and the samples fit
    /// in memory and on the clock.
    pub fn intake(
        &mut self,
        chunk: usize,
        revision: u64,
        active: Band,
        transmitting: bool,
        rearm: bool,
    ) -> (r: (Intake, Vec<Event>))
        requires
            old(self).wf(),
            !old(self)@.due(),
            old(self)@.held + chunk <= isize::MAX / 4,
            old(self)@.total() + chunk <= CLOCK_LIMIT,
        ensures
            final(self).wf(),
            (final(self)@, r.0) == taken_in(
                old(self)@,
                chunk as int,
                revision,
                active,
                transmitting,
                rearm,
            ),
            event::views(r.1@) == intake_notes(r.0),
    {
        let mut events = no_events();
        let ghost v = self@;
        if revision != self.revision {
            self.revision = revision;
            self.band = active;
            self.skip(chunk);
            emit(
                &mut events,
                Event::Log(Level::Info, "retuned -- matched filters rebuilt".to_owned()),
            );
            assert(event::views(events@) =~= intake_notes(Intake::Retuned));
            return (Intake::Retuned, events);
        }
        if transmitting || rearm {
            self.skip(chunk);
            self.stats.state = if transmitting {
                RxState::Transmitting
            } else {
                RxState::Search
            };
            return (Intake::Muted { rearmed: !transmitting }, events);
        }
        proof {
            lemma_longest_frame(PROFILE_COUNT as nat);
        }
        let total: i64 = self.origin + self.held as i64 + chunk as i64;
        let hold: i64 = max_frame_samples() as i64 + 3 * SAMPLE_RATE as i64;
        let want: i64 = if self.state == RxState::Search {
            self.search - ms_samples(LEAD_GUARD_MS) as i64
        } else {
            self.data_start - MAX_OFF
        };
        let mut keep: i64 = if want < total {
            want
        } else {
            total
        };
        if keep < total - hold {
            keep = total - hold;
        }
        if keep < 0 {
            keep = 0;
        }
        let drop: usize = if keep > self.origin {
            (keep - self.origin) as usize
        } else {
            0
        };
        self.held = self.held + chunk - drop;
        self.origin = self.origin + drop as i64;
        self.fresh = true;
        assert(self@ == admitted(v, chunk as int));
        (Intake::Admitted { drop }, events)
    }

    fn skip(&mut self, chunk: usize)
        requires
            old(self).wf(),
            old(self)@.total() + chunk <= CLOCK_LIMIT,
            old(self)@.held + chunk <= isize::MAX / 4,
        ensures
            final(self).wf(),
            final(self)@ == skipped(old(self)@, chunk as int),
    {
        self.origin = self.origin + self.held as i64 + chunk as i64;
        self.search = self.origin;
        self.held = 0;
        self.state = RxState::Search;
        self.fresh = false;
    }
}

// --------------------------------------------------------------------------- //
// Search
// --------------------------------------------------------------------------- //
/// A preamble.
#[derive(Clone, Copy, Debug, PartialEq, Eq)]
pub struct Hit {
    pub band: Band,
    pub score: i32,
    /// The position of its first sample.
    pub at: i64,
}

/// One pass of the matched filters over the samples from `off` on.
#[derive(Clone, Copy, Debug, PartialEq, Eq)]
pub struct Scan {
    pub off: usize,
    pub hit: Option<Hit>,
    /// How many places were looked at.
    pub consumed: usize,
}

/// A counter that was raised `k` times.
pub open spec fn counted(n: u64, k: nat) -> u64 {
    ((n + k) % 0x1_0000_0000_0000_0000) as u64
}

/// What a pass has seen lies among the samples held.
pub open spec fn scan_inside(v: RxView, scan: Scan) -> bool {
    &&& scan.off + scan.consumed <= v.held
    &&& scan.hit matches Some(h) ==> v.origin <= h.at <= v.total()
}

/// The pass after one detector.
///
/// `found` is its strongest peak with a quiet run-up, if there is one. Of several
/// detectors the strongest hit counts.
pub open spec fn scan_after(
    v: RxView,
    scan: Scan,
    band: Band,
    sc: Seq<i32>,
    found: Option<usize>,
) -> Scan {
    Scan {
        off: scan.off,
        consumed: packet::larger(scan.consumed as int, sc.len() as int) as usize,
        hit: match found {
            Some(j) => match scan.hit {
                Some(h) if !chirp::above(sc[j as int], h.score) => scan.hit,
                _ => Some(
                    Hit { band, score: sc[j as int], at: (v.origin + scan.off + j) as i64 },
                ),
            },
            None => scan.hit,
        },
    }
}

/// The statistics after one detector.
pub open spec fn stats_after(stats: Stats, sc: Seq<i32>, rejected: nat) -> Stats {
    let top = chirp::strongest_of(sc, 0, sc.len() - 1);
    Stats {
        noise_score: chirp::middle(sc),
        peak_score: sc[top],
        peak_hold: chirp::higher(stats.peak_hold, sc[top]),
        rejected: counted(stats.rejected, rejected),
        ..stats
    }
}

/// The report of a preamble.
pub open spec fn preamble_note(h: Hit) -> event::EventView {
    event::EventView::Log(
        Level::Info,
        "preamble "@ + h.band.name@ + " score="@ + chirp::score_text(h.score) + " at t="@
            + text::double_text(
                text::whole_double(h.at as nat) as int,
                48_000,
                2,
            ) + "s"@,
    )
}

/// The state after a pass. With a hit the receiver waits for the header: profiles
/// are band-agnostic, so any of them may be in use, and our own setting is tried
/// first since it usually matches. The chirp is never detected again.
pub open spec fn searched(v: RxView, scan: Scan, active_profile: usize) -> RxView {
    match scan.hit {
        None => RxView {
            search: if scan.consumed > 0 {
                v.origin + scan.off + scan.consumed
            } else {
                v.search
            },
            fresh: false,
            ..v
        },
        Some(h) => {
            let data_start = h.at + crate::samples_in(h.band.chirp_ms as int) + crate::samples_in(
                GAP_MS as int,
            );
            let cands = profile::preference(active_profile as int);
            RxView {
                band: h.band,
                data_start,
                search: data_start,
                cands,
                lock_pid: usize::MAX,
                need: data_start + MAX_OFF + longest_header(cands),
                state: RxState::Header,
                fresh: true,
                stats: Stats { detections: counted(v.stats.detections, 1), ..v.stats },
                ..v
            }
        },
    }
}

/// Where a pass would start among the samples held.
pub open spec fn search_offset(v: RxView) -> int {
    packet::larger(v.search - v.origin, 0)
}

/// The state once a pass was begun. Where its samples have not arrived, that was all.
pub open spec fn search_begun(v: RxView) -> RxView {
    RxView {
        fresh: v.fresh && search_offset(v) <= v.held,
        stats: Stats { state: RxState::Search, ..v.stats },
        ..v
    }
}

/// A stretch of samples is worth filtering for a template of `m` samples.
pub fn worth_filtering(samples: usize, m: usize) -> (yes: bool)
    ensures
        yes == (samples >= m + MIN_SEARCH_NEW),
{
    samples >= m && samples - m >= MIN_SEARCH_NEW
}

impl RxMachine {
    /// Begin a pass over the samples that were not searched yet; nothing if they
    /// have not arrived.
    pub fn begin_search(&mut self) -> (scan: Option<Scan>)
        requires
            old(self).wf(),
            old(self)@.state == RxState::Search,
        ensures
            final(self).wf(),
            final(self)@ == search_begun(old(self)@),
            scan == (if search_offset(old(self)@) > old(self)@.held {
                None
            } else {
                Some(
                    Scan { off: search_offset(old(self)@) as usize, hit: None, consumed: 0 },
                )
            }),
            scan matches Some(s) ==> scan_inside(final(self)@, s),
    {
        self.stats.state = RxState::Search;
        let ahead: i64 = self.search - self.origin;
        let off: i64 = if ahead < 0 {
            0
        } else {
            ahead
        };
        if off > self.held as i64 {
            self.fresh = false;
            return None;
        }
        Some(Scan { off: off as usize, hit: None, consumed: 0 })
    }

    /// Take the scores of one detector over the samples from the pass's start on, and
    /// what came of the trial of their peaks.
    pub fn examine(
        &mut self,
        scan: &mut Scan,
        det: &PreambleDetector,
        sc: &[i32],
        trial: &PeakTrial,
    )
        requires
            old(self).wf(),
            old(self)@.state == RxState::Search,
            scan_inside(old(self)@, *old(scan)),
            old(scan).off + sc@.len() <= old(self)@.held,
            0 < sc@.len(),
            trial.wf(),
            trial.within(sc@.len() as int),
            trial@.left.len() == 0,
        ensures
            final(self).wf(),
            *final(scan) == scan_after(
                old(self)@,
                *old(scan),
                det.band,
                sc@,
                trial@.found,
            ),
            scan_inside(final(self)@, *final(scan)),
            final(self)@ == (RxView {
                stats: stats_after(old(self)@.stats, sc@, trial@.rejected),
                ..old(self)@
            }),
    {
        let ghost v = self@;
        if scan.consumed < sc.len() {
            scan.consumed = sc.len();
        }
        let top: usize = match strongest(sc) {
            Some(top) => top,
            None => 0,
        };
        self.stats.noise_score = median(sc);
        self.stats.peak_score = sc[top];
        self.stats.peak_hold = higher_score(self.stats.peak_hold, sc[top]);
        self.stats.rejected = raised(self.stats.rejected, trial.rejected());
        if let Some(j) = trial.found() {
            let score: i32 = sc[j];
            let found = Hit {
                band: det.band,
                score,
                at: self.origin + scan.off as i64 + j as i64,
            };
            let better: bool = match &scan.hit {
                Some(h) => score_above(score, h.score),
                None => true,
            };
            if better {
                scan.hit = Some(found);
            }
        }
        proof {
            chirp::lemma_one_strongest(sc@, 0, sc@.len() - 1, top as int);
        }
        assert(self@ == (RxView { stats: stats_after(v.stats, sc@, trial@.rejected), ..v }));
    }

    /// End a pass.
    pub fn end_search(&mut self, scan: &Scan, active_profile: usize) -> (events: Vec<Event>)
        requires
            old(self).wf(),
            old(self)@.state == RxState::Search,
            scan_inside(old(self)@, *scan),
        ensures
            final(self).wf(),
            final(self)@ == searched(old(self)@, *scan, active_profile),
            event::views(events@) == (match scan.hit {
                Some(h) => seq![preamble_note(h)],
                None => Seq::empty(),
            }),
    {
        let mut events = no_events();
        match scan.hit {
            None => {
                if scan.consumed > 0 {
                    self.search = self.origin + scan.off as i64 + scan.consumed as i64;
                }
                self.fresh = false;
            },
            Some(h) => {
                let mut note = "preamble ".to_owned();
                note.append(h.band.name);
                note.append(" score=");
                push_score(&mut note, h.score);
                note.append(" at t=");
                let at: u128 = to_whole_double(h.at as u128);
                push_double(&mut note, at as i128, 48_000, 2);
                note.append("s");
                emit(&mut events, Event::Log(Level::Info, note));
                self.band = h.band;
                self.data_start = h.at + h.band.chirp_samples() as i64 + ms_samples(GAP_MS) as i64;
                self.search = self.data_start;
                self.stats.detections = raised(self.stats.detections, 1);
                self.cands = profiles_preferring(active_profile);
                self.lock_pid = usize::MAX;
                self.need = self.data_start + MAX_OFF + header_samples(
                    self.cands.as_slice(),
                ) as i64;
                self.state = RxState::Header;
                self.fresh = true;
            },
        }
        assert(event::views(events@) =~= (match scan.hit {
            Some(h) => seq![preamble_note(h)],
            None => Seq::empty(),
        }));
        events
    }
}

/// Raise a counter `k` times.
fn raised(n: u64, k: usize) -> (m: u64)
    ensures
        m == counted(n, k as nat),
{
    let room: u64 = u64::MAX - n;
    if k as u64 <= room {
        n + k as u64
    } else {
        k as u64 - room - 1
    }
}

// --------------------------------------------------------------------------- //
// Header
// --------------------------------------------------------------------------- //
/// A header that was read: in which profile, at which offset, and what it says.
#[derive(Clone, Copy, Debug, PartialEq, Eq, Structural)]
pub struct HeaderLock {
    pub profile_id: usize,
    pub offset: i64,
    pub length: usize,
    pub confidence: u128,
}

/// The state of a [`HeaderTrial`].
#[verifier::ext_equal]
pub struct HeaderTrialView {
    /// What is still to be tried.
    pub left: Seq<Probe>,
    /// The first sample of the frame, counted from the first sample held.
    pub base: int,
    pub found: Option<HeaderLock>,
}

/// The trial after the bits at its first place: a header counts where it names the
/// profile that it was read with, and ends the trial.
pub open spec fn header_tried(t: HeaderTrialView, bits: Seq<u8>, confidence: u128) -> HeaderTrialView {
    let p = t.left[0];
    let h = packet::header_result(bits, p.start, confidence, MAX_PAYLOAD);
    if h.ok && h.profile_id == Some(p.profile_id) {
        HeaderTrialView {
            left: Seq::empty(),
            found: Some(
                HeaderLock {
                    profile_id: p.profile_id,
                    offset: (p.start - t.base) as i64,
                    length: h.length,
                    confidence,
                },
            ),
            ..t
        }
    } else {
        HeaderTrialView { left: t.left.skip(1), ..t }
    }
}

/// Every candidate profile at every fine-sync offset, until a header can be read.
pub struct HeaderTrial {
    probes: Vec<Probe>,
    next: usize,
    base: i64,
    found: Option<HeaderLock>,
}

impl View for HeaderTrial {
    type V = HeaderTrialView;

    closed spec fn view(&self) -> HeaderTrialView {
        HeaderTrialView {
            left: self.probes@.skip(self.next as int),
            base: self.base as int,
            found: self.found,
        }
    }
}

/// A lock that a receiver can act on.
pub open spec fn lock_usable(l: HeaderLock) -> bool {
    &&& profile::profile_of(l.profile_id as int) is Some
    &&& l.length <= MAX_PAYLOAD
    &&& -MAX_OFF <= l.offset <= MAX_OFF
}

impl HeaderTrial {
    pub closed spec fn wf(self) -> bool {
        &&& self.next <= self.probes@.len()
        &&& forall|i: int|
            0 <= i < self.probes@.len() ==> {
                &&& profile::profile_of((#[trigger] self.probes@[i]).profile_id as int) is Some
                &&& -MAX_OFF <= self.probes@[i].start - self.base <= MAX_OFF
            }
        &&& self.found matches Some(l) ==> lock_usable(l)
    }

    /// The place to demodulate the header at, if one is left.
    pub fn want(&self) -> (p: Option<Probe>)
        requires
            self.wf(),
        ensures
            p == (if self@.left.len() == 0 {
                None
            } else {
                Some(self@.left[0])
            }),
            p matches Some(p) ==> profile::profile_of(p.profile_id as int) is Some,
    {
        if self.next >= self.probes.len() {
            None
        } else {
            Some(self.probes[self.next])
        }
    }

    /// Take the bits that were wanted.
    pub fn tell(&mut self, bits: &[u8], confidence: u128)
        requires
            old(self).wf(),
            old(self)@.left.len() > 0,
            fec::is_bits(bits@),
        ensures
            final(self).wf(),
            final(self)@ == header_tried(old(self)@, bits@, confidence),
    {
        let count: usize = self.probes.len();
        assert(self.next < count);
        let ghost before = self@;
        let p = self.probes[self.next];
        let h = decode_header(bits, p.start, confidence, MAX_PAYLOAD);
        let named: bool = match h.profile_id {
            Some(id) => id == p.profile_id,
            None => false,
        };
        if h.ok && named {
            proof {
                packet::lemma_header_admitted(bits@, p.start, confidence, MAX_PAYLOAD);
            }
            self.found = Some(
                HeaderLock {
                    profile_id: p.profile_id,
                    offset: p.start as i64 - self.base,
                    length: h.length,
                    confidence,
                },
            );
            self.next = count;
            assert(self@.left =~= Seq::<Probe>::empty());
        } else {
            self.next = self.next + 1;
            assert(self@.left =~= before.left.skip(1));
        }
    }
}

/// The report of a header that could not be read.
pub open spec fn no_header_note() -> event::EventView {
    event::EventView::Log(
        Level::Warn,
        "preamble found but header would not decode (weak signal / wrong profile)"@,
    )
}

/// The report of a header.
pub open spec fn header_note(l: HeaderLock, band: Band) -> event::EventView {
    let p = profile::profile_of(l.profile_id as int).unwrap();
    event::EventView::Log(
        Level::Info,
        "header ok: "@ + p.name@ + " on "@ + band.name@ + " "@ + text::decimal(l.length as nat)
            + "B conf="@ + packet::confidence_text(l.confidence) + " (~"@
            + text::double_text(packet::frame_sample_count(l.length as int, p), 48_000, 1) + "s)"@,
    )
}

/// The state after a header trial.
///
/// The wait is for the largest offset, so the body can be retried at any of them
/// without waiting for more audio.
pub open spec fn header_done(v: RxView, found: Option<HeaderLock>) -> RxView {
    match found {
        None => RxView {
            state: RxState::Search,
            fresh: false,
            stats: Stats { rx_bad: counted(v.stats.rx_bad, 1), ..v.stats },
            ..v
        },
        Some(l) => RxView {
            state: RxState::Body,
            fresh: true,
            lock_pid: l.profile_id,
            lock_off: l.offset as int,
            lock_len: l.length,
            need: v.data_start + MAX_OFF + packet::frame_sample_count(
                l.length as int,
                profile::profile_of(l.profile_id as int).unwrap(),
            ),
            ..v
        },
    }
}

proof fn lemma_probe_row(id: usize, base: int, offs: Seq<isize>)
    requires
        packet::reachable(base, offs),
        forall|i: int| 0 <= i < offs.len() ==> -MAX_OFF <= #[trigger] offs[i] <= MAX_OFF,
    ensures
        forall|i: int|
            0 <= i < packet::probe_row(id, base, offs).len() ==> {
                &&& (#[trigger] packet::probe_row(id, base, offs)[i]).profile_id == id
                &&& -MAX_OFF <= packet::probe_row(id, base, offs)[i].start - base <= MAX_OFF
                &&& 0 <= packet::probe_row(id, base, offs)[i].start
            },
    decreases offs.len(),
{
    if offs.len() > 0 {
        let rest = offs.drop_last();
        assert forall|i: int| 0 <= i < rest.len() implies -MAX_OFF <= #[trigger] rest[i]
            <= MAX_OFF by {
            assert(rest[i] == offs[i]);
        }
        assert forall|i: int| 0 <= i < rest.len() implies i64::MIN <= base + #[trigger] rest[i]
            <= isize::MAX by {
            assert(rest[i] == offs[i]);
        }
        lemma_probe_row(id, base, rest);
        let o = offs[offs.len() - 1];
        assert(-MAX_OFF <= o <= MAX_OFF);
        assert(base + o <= isize::MAX);
        let before = packet::probe_row(id, base, rest);
        let row = packet::probe_row(id, base, offs);
        assert forall|i: int| 0 <= i < row.len() implies {
            &&& (#[trigger] row[i]).profile_id == id
            &&& -MAX_OFF <= row[i].start - base <= MAX_OFF
            &&& 0 <= row[i].start
        } by {
            if i < before.len() {
                assert(row[i] == before[i]);
            } else {
                assert(row[i] == Probe { profile_id: id, start: (base + o) as isize });
            }
        }
    }
}

proof fn lemma_all_probes(ids: Seq<usize>, base: int, offs: Seq<isize>)
    requires
        packet::reachable(base, offs),
        forall|i: int| 0 <= i < offs.len() ==> -MAX_OFF <= #[trigger] offs[i] <= MAX_OFF,
    ensures
        forall|i: int|
            0 <= i < packet::all_probes(ids, base, offs).len() ==> {
                let p = #[trigger] packet::all_probes(ids, base, offs)[i];
                &&& profile::profile_of(p.profile_id as int) is Some
                &&& ids.contains(p.profile_id)
                &&& -MAX_OFF <= p.start - base <= MAX_OFF
                &&& 0 <= p.start
            },
    decreases ids.len(),
{
    if ids.len() > 0 {
        let rest = ids.drop_last();
        let last = ids.last();
        let before = packet::all_probes(rest, base, offs);
        let row = packet::probe_row(last, base, offs);
        let all = packet::all_probes(ids, base, offs);
        lemma_all_probes(rest, base, offs);
        lemma_probe_row(last, base, offs);
        assert forall|i: int| 0 <= i < all.len() implies {
            let p = #[trigger] all[i];
            &&& profile::profile_of(p.profile_id as int) is Some
            &&& ids.contains(p.profile_id)
            &&& -MAX_OFF <= p.start - base <= MAX_OFF
            &&& 0 <= p.start
        } by {
            if i < before.len() {
                assert(all[i] == before[i]);
                let id = before[i].profile_id;
                let k = choose|k: int| 0 <= k < rest.len() && rest[k] == id;
                assert(ids[k] == id);
            } else {
                assert(all[i] == row[i - before.len()]);
                assert(ids[ids.len() - 1] == last);
            }
        }
    }
}

proof fn lemma_offsets_reachable(v: RxView)
    requires
        v.sound(),
        v.due(),
    ensures
        packet::reachable(v.base(), offsets()),
        forall|i: int| 0 <= i < offsets().len() ==> -MAX_OFF <= #[trigger] offsets()[i] <= MAX_OFF,
{
    assert forall|i: int| 0 <= i < offsets().len() implies -MAX_OFF <= #[trigger] offsets()[i]
        <= MAX_OFF by {
        fine_sync_range(i);
    }
    assert forall|i: int| 0 <= i < offsets().len() implies i64::MIN <= v.base()
        + #[trigger] offsets()[i] <= isize::MAX by {
        fine_sync_range(i);
    }
}

impl RxMachine {
    /// Begin to try the header.
    pub fn begin_header(&mut self) -> (trial: HeaderTrial)
        requires
            old(self).wf(),
            old(self)@.state == RxState::Header,
            old(self)@.due(),
        ensures
            final(self).wf(),
            final(self)@ == (RxView {
                stats: Stats { state: RxState::Header, ..old(self)@.stats },
                ..old(self)@
            }),
            trial.wf(),
            trial@ == (HeaderTrialView {
                left: packet::all_probes(old(self)@.cands, old(self)@.base(), offsets()),
                base: old(self)@.base(),
                found: None,
            }),
    {
        proof {
            lemma_offsets_reachable(self@);
            lemma_all_probes(self.cands@, self@.base(), offsets());
        }
        self.stats.state = RxState::Header;
        let base: i64 = self.data_start - self.origin;
        let probes = list_probes(
            self.cands.as_slice(),
            base,
            default_sync_offsets().as_slice(),
        );
        assert(probes@.skip(0) =~= probes@);
        HeaderTrial { probes, next: 0, base, found: None }
    }

    /// End the header trial.
    pub fn end_header(&mut self, trial: &HeaderTrial) -> (events: Vec<Event>)
        requires
            old(self).wf(),
            old(self)@.state == RxState::Header,
            trial.wf(),
        ensures
            final(self).wf(),
            final(self)@ == header_done(old(self)@, trial@.found),
            event::views(events@) == (match trial@.found {
                None => seq![no_header_note()],
                Some(l) => seq![header_note(l, old(self)@.band)],
            }),
    {
        let mut events = no_events();
        match trial.found {
            None => {
                self.stats.rx_bad = raised(self.stats.rx_bad, 1);
                emit(
                    &mut events,
                    Event::Log(
                        Level::Warn,
                        "preamble found but header would not decode (weak signal / wrong profile)".to_owned(),
                    ),
                );
                self.state = RxState::Search;
                self.fresh = false;
            },
            Some(l) => {
                if let Some(p) = profile::profile(l.profile_id) {
                    proof {
                        packet::lemma_table_sizes(l.profile_id as int, l.length as int);
                        lemma_small_frames(l.profile_id as int, l.length as int);
                    }
                    let samples: usize = frame_samples(l.length, &p);
                    self.lock_pid = l.profile_id;
                    self.lock_off = l.offset;
                    self.lock_len = l.length;
                    self.need = self.data_start + MAX_OFF + samples as i64;
                    let mut note = "header ok: ".to_owned();
                    note.append(p.name);
                    note.append(" on ");
                    note.append(self.band.name);
                    note.append(" ");
                    push_decimal(&mut note, l.length as u128);
                    note.append("B conf=");
                    push_confidence(&mut note, l.confidence);
                    note.append(" (~");
                    push_double(&mut note, samples as i128, 48_000, 1);
                    note.append("s)");
                    emit(&mut events, Event::Log(Level::Info, note));
                    self.state = RxState::Body;
                    self.fresh = true;
                }
            },
        }
        assert(event::views(events@) =~= (match trial@.found {
            None => seq![no_header_note()],
            Some(l) => seq![header_note(l, old(self)@.band)],
        }));
        events
    }
}

// --------------------------------------------------------------------------- //
// Body
// --------------------------------------------------------------------------- //
/// The places to try besides the one that gave the header: every other offset that
/// does not lie before the samples held, in order.
pub open spec fn other_starts(base: int, lock_off: int, offs: Seq<isize>) -> Seq<isize>
    decreases offs.len(),
{
    if offs.len() == 0 {
        Seq::empty()
    } else {
        let before = other_starts(base, lock_off, offs.drop_last());
        let o = offs.last();
        if o == lock_off || base + o < 0 {
            before
        } else {
            before.push((base + o) as isize)
        }
    }
}

/// The state of a [`BodyTrial`].
#[verifier::ext_equal]
pub struct BodyTrialView {
    pub profile_id: usize,
    pub length: usize,
    /// What is still to be tried.
    pub left: Seq<isize>,
    pub tries: nat,
    /// The frame, or why the first try gave none.
    pub result: Option<packet::DecodeView>,
}

/// The trial after the bits at its first place. A frame ends it.
pub open spec fn body_tried(t: BodyTrialView, bits: Seq<u8>, confidence: u128) -> BodyTrialView {
    let r = packet::frame_result(bits, t.left[0], confidence, t.length);
    BodyTrialView {
        left: if r.ok {
            Seq::empty()
        } else {
            t.left.skip(1)
        },
        tries: t.tries + 1,
        result: if r.ok || t.result is None {
            Some(r)
        } else {
            t.result
        },
        ..t
    }
}

/// The whole frame at the offset that gave the header, and on a CRC failure at the
/// neighbouring ones.
///
/// The offset that decoded the header is not always the best one for the whole
/// body -- reverb shifts the optimum by a millisecond or two. The audio is already
/// buffered, so nothing is lost by trying again.
pub struct BodyTrial {
    profile_id: usize,
    length: usize,
    starts: Vec<isize>,
    next: usize,
    result: Option<DecodeResult>,
}

impl View for BodyTrial {
    type V = BodyTrialView;

    closed spec fn view(&self) -> BodyTrialView {
        BodyTrialView {
            profile_id: self.profile_id,
            length: self.length,
            left: match self.result {
                Some(r) if r.ok => Seq::empty(),
                _ => self.starts@.skip(self.next as int),
            },
            tries: self.next as nat,
            result: match self.result {
                Some(r) => Some(r@),
                None => None,
            },
        }
    }
}

impl BodyTrial {
    pub closed spec fn wf(self) -> bool {
        &&& self.next <= self.starts@.len()
        &&& self.length <= MAX_PAYLOAD
        &&& profile::profile_of(self.profile_id as int) is Some
        &&& 0 < self.starts@.len()
        &&& self.next > 0 <==> self.result is Some
    }

    /// The place to demodulate the frame at, if one is left.
    pub fn want(&self) -> (at: Option<isize>)
        requires
            self.wf(),
        ensures
            at == (if self@.left.len() == 0 {
                None
            } else {
                Some(self@.left[0])
            }),
    {
        let over: bool = match &self.result {
            Some(r) => r.ok,
            None => false,
        };
        if over || self.next >= self.starts.len() {
            None
        } else {
            Some(self.starts[self.next])
        }
    }

    pub fn profile_id(&self) -> (id: usize)
        requires
            self.wf(),
        ensures
            id == self@.profile_id,
            profile::profile_of(id as int) is Some,
    {
        self.profile_id
    }

    /// The payload bytes of the frame.
    pub fn length(&self) -> (n: usize)
        requires
            self.wf(),
        ensures
            n == self@.length,
            n <= MAX_PAYLOAD,
    {
        self.length
    }

    /// Take the bits that were wanted.
    pub fn tell(&mut self, bits: &[u8], confidence: u128)
        requires
            old(self).wf(),
            old(self)@.left.len() > 0,
            fec::is_bits(bits@),
        ensures
            final(self).wf(),
            final(self)@ == body_tried(old(self)@, bits@, confidence),
    {
        let count: usize = self.starts.len();
        assert(self.next < count);
        let ghost before = self@;
        let at: isize = self.starts[self.next];
        proof {
            packet::lemma_table_sizes(self.profile_id as int, self.length as int);
        }
        let r = decode_frame(bits, at, confidence, self.length);
        self.next = self.next + 1;
        if r.ok || self.result.is_none() {
            self.result = Some(r);
        }
        assert(self.starts@.skip(self.next as int) =~= before.left.skip(1));
        assert(self@ == body_tried(before, bits@, confidence));
    }
}

/// How far a frame has come: percent, and never quite all.
pub open spec fn rx_percent(v: RxView) -> u8 {
    let part = 100 * (v.total() - v.data_start);
    let span = packet::larger(v.need - v.data_start, 1);
    if part < 0 {
        0
    } else if part / span > 99 {
        99
    } else {
        (part / span) as u8
    }
}

/// What is reported of a frame: that it is there, or why not, and how many places
/// were tried.
pub open spec fn body_note(t: BodyTrialView) -> event::EventView {
    let r = t.result.unwrap();
    if r.ok {
        let note = "frame ok ("@ + text::decimal(t.length as nat) + "B)"@;
        event::EventView::Log(
            Level::Info,
            if t.tries > 1 {
                note + " after "@ + text::decimal(t.tries) + " sync tries"@
            } else {
                note
            },
        )
    } else {
        event::EventView::Log(
            Level::Warn,
            "frame dropped: "@ + r.reason + " ("@ + text::decimal(t.tries)
                + " sync offsets tried)"@,
        )
    }
}

/// The state after a frame, read or not. The search goes on behind it.
pub open spec fn body_done(v: RxView, ok: bool) -> RxView {
    RxView {
        state: RxState::Search,
        search: packet::larger(v.search, v.need),
        fresh: false,
        stats: if ok {
            Stats { rx_ok: counted(v.stats.rx_ok, 1), ..v.stats }
        } else {
            Stats { rx_bad: counted(v.stats.rx_bad, 1), ..v.stats }
        },
        ..v
    }
}

impl RxMachine {
    /// Report how much of the frame has arrived, while not all has.
    pub fn progress(&mut self) -> (e: Event)
        requires
            old(self).wf(),
            old(self)@.state == RxState::Body,
            !old(self)@.due(),
        ensures
            final(self).wf(),
            final(self)@ == (RxView {
                fresh: false,
                stats: Stats { state: RxState::Body, ..old(self)@.stats },
                ..old(self)@
            }),
            e@ == (event::EventView::Progress { pct: rx_percent(old(self)@), note: "RX frame"@ }),
    {
        self.stats.state = RxState::Body;
        self.fresh = false;
        let total: i64 = self.origin + self.held as i64;
        let here: i128 = 100 * (total as i128 - self.data_start as i128);
        let whole: i64 = self.need - self.data_start;
        let span: i128 = if whole < 1 {
            1
        } else {
            whole as i128
        };
        let pct: u8 = if here < 0 {
            0
        } else {
            let q: i128 = here / span;
            if q > 99 {
                99
            } else {
                q as u8
            }
        };
        Event::Progress { pct, note: "RX frame".to_owned() }
    }

    /// Begin to try the body.
    pub fn begin_body(&mut self) -> (trial: BodyTrial)
        requires
            old(self).wf(),
            old(self)@.state == RxState::Body,
            old(self)@.due(),
        ensures
            final(self).wf(),
            final(self)@ == (RxView {
                stats: Stats { state: RxState::Body, ..old(self)@.stats },
                ..old(self)@
            }),
            trial.wf(),
            trial@ == (BodyTrialView {
                profile_id: old(self)@.lock_pid,
                length: old(self)@.lock_len,
                left: seq![(old(self)@.base() + old(self)@.lock_off) as isize] + other_starts(
                    old(self)@.base(),
                    old(self)@.lock_off,
                    offsets(),
                ),
                tries: 0,
                result: None,
            }),
            old(self)@.base() + old(self)@.lock_off >= isize::MIN,
    {
        proof {
            lemma_offsets_reachable(self@);
        }
        self.stats.state = RxState::Body;
        let base: i64 = self.data_start - self.origin;
        let first: isize = (base + self.lock_off) as isize;
        let mut starts: Vec<isize> = Vec::new();
        starts.push(first);
        let offs = default_sync_offsets();
        let mut i: usize = 0;
        assert(offs@.take(0) =~= Seq::<isize>::empty());
        assert(starts@ =~= seq![first] + Seq::<isize>::empty());
        while i < offs.len()
            invariant
                i <= offs@.len(),
                offs@ == offsets(),
                self@.sound(),
                base == self@.base(),
                packet::reachable(base as int, offs@),
                starts@ == seq![first] + other_starts(
                    base as int,
                    self.lock_off as int,
                    offs@.take(i as int),
                ),
            decreases offs@.len() - i,
        {
            let o: isize = offs[i];
            assert(offs@.take(i + 1).drop_last() =~= offs@.take(i as int));
            assert(offs@.take(i + 1).last() == o);
            let ghost before = other_starts(
                base as int,
                self.lock_off as int,
                offs@.take(i as int),
            );
            let at: i64 = base + o as i64;
            if o as i64 != self.lock_off && at >= 0 {
                starts.push(at as isize);
                assert(starts@ =~= seq![first] + before.push(at as isize));
            }
            i = i + 1;
        }
        assert(offs@.take(i as int) =~= offs@);
        let trial = BodyTrial {
            profile_id: self.lock_pid,
            length: self.lock_len,
            starts,
            next: 0,
            result: None,
        };
        assert(trial.starts@.skip(0) =~= trial.starts@);
        trial
    }

    /// End the body trial: what to report, and the payload if there is one.
    ///
    /// Replies go out on the profile and band the frame arrived on, not on ours --
    /// the sender is listening there.
    pub fn end_body(&mut self, trial: BodyTrial) -> (r: (Event, Option<Vec<u8>>))
        requires
            old(self).wf(),
            old(self)@.state == RxState::Body,
            trial.wf(),
            trial@.result is Some,
        ensures
            final(self).wf(),
            final(self)@ == body_done(old(self)@, trial@.result.unwrap().ok),
            r.0@ == body_note(trial@),
            match r.1 {
                Some(payload) => trial@.result.unwrap().ok && payload@
                    == trial@.result.unwrap().payload,
                None => !trial@.result.unwrap().ok,
            },
    {
        let ghost view = trial@;
        let tries: usize = trial.next;
        let length: usize = trial.length;
        self.search = if self.search < self.need {
            self.need
        } else {
            self.search
        };
        self.state = RxState::Search;
        self.fresh = false;
        let res = trial.result.unwrap();
        if res.ok {
            self.stats.rx_ok = raised(self.stats.rx_ok, 1);
            let mut note = "frame ok (".to_owned();
            push_decimal(&mut note, length as u128);
            note.append("B)");
            if tries > 1 {
                note.append(" after ");
                push_decimal(&mut note, tries as u128);
                note.append(" sync tries");
            }
            (Event::Log(Level::Info, note), Some(res.payload))
        } else {
            self.stats.rx_bad = raised(self.stats.rx_bad, 1);
            let mut note = "frame dropped: ".to_owned();
            note.append(res.reason.as_str());
            note.append(" (");
            push_decimal(&mut note, tries as u128);
            note.append(" sync offsets tried)");
            (Event::Log(Level::Warn, note), None)
        }
    }
}

// --------------------------------------------------------------------------- //
// What holds of every receiver
// --------------------------------------------------------------------------- //
/// However long the receiver runs, it holds no more than the longest frame and
/// three seconds.
pub proof fn memory_is_bounded(v: RxView, chunk: int)
    ensures
        admitted(v, chunk).held <= max_hold(),
{
}

/// Trimming never drops what the state still needs, as long as it is no older than
/// the longest frame and three seconds; and it moves no position.
pub proof fn nothing_wanted_is_dropped(v: RxView, chunk: int, at: int)
    requires
        0 <= chunk,
        0 <= v.origin <= at,
        still_wanted(v) <= at,
        v.total() + chunk - max_hold() <= at,
    ensures
        admitted(v, chunk).origin <= at,
        admitted(v, chunk).total() == v.total() + chunk,
        admitted(v, chunk).state == v.state,
        admitted(v, chunk).data_start == v.data_start,
{
}

/// One thing that a receiver is told to do.
pub enum RxStep {
    TakeIn { chunk: nat, revision: u64, active: Band, transmitting: bool, rearm: bool },
    BeginSearch,
    Examine { sc: Seq<i32>, rejected: nat },
    EndSearch { scan: Scan, active_profile: usize },
    BeginHeader,
    EndHeader { found: Option<HeaderLock> },
    Progress,
    BeginBody,
    EndBody { ok: bool },
}

/// The receiver after a step.
pub open spec fn stepped(v: RxView, step: RxStep) -> RxView {
    match step {
        RxStep::TakeIn { chunk, revision, active, transmitting, rearm } => taken_in(
            v,
            chunk as int,
            revision,
            active,
            transmitting,
            rearm,
        ).0,
        RxStep::BeginSearch => search_begun(v),
        RxStep::Examine { sc, rejected } => RxView {
            stats: stats_after(v.stats, sc, rejected),
            ..v
        },
        RxStep::EndSearch { scan, active_profile } => searched(v, scan, active_profile),
        RxStep::BeginHeader => RxView {
            stats: Stats { state: RxState::Header, ..v.stats },
            ..v
        },
        RxStep::EndHeader { found } => header_done(v, found),
        RxStep::Progress => RxView {
            fresh: false,
            stats: Stats { state: RxState::Body, ..v.stats },
            ..v
        },
        RxStep::BeginBody => RxView { stats: Stats { state: RxState::Body, ..v.stats }, ..v },
        RxStep::EndBody { ok } => body_done(v, ok),
    }
}

/// The state of the receiver admits the step.
pub open spec fn step_fits(v: RxView, step: RxStep) -> bool {
    match step {
        RxStep::TakeIn { .. } => !v.due(),
        RxStep::BeginSearch => v.state == RxState::Search,
        RxStep::Examine { .. } => v.state == RxState::Search,
        RxStep::EndSearch { scan, .. } => v.state == RxState::Search && scan_inside(v, scan),
        RxStep::BeginHeader => v.state == RxState::Header && v.due(),
        RxStep::EndHeader { .. } => v.state == RxState::Header,
        RxStep::Progress => v.state == RxState::Body && !v.due(),
        RxStep::BeginBody => v.state == RxState::Body && v.due(),
        RxStep::EndBody { .. } => v.state == RxState::Body,
    }
}

/// The receiver after these steps, one after the other.
pub open spec fn after_steps(v: RxView, run: Seq<RxStep>) -> RxView
    decreases run.len(),
{
    if run.len() == 0 {
        v
    } else {
        stepped(after_steps(v, run.drop_last()), run.last())
    }
}

/// Each of the steps fits the state it meets.
pub open spec fn steps_fit(v: RxView, run: Seq<RxStep>) -> bool
    decreases run.len(),
{
    run.len() == 0 || (steps_fit(v, run.drop_last()) && step_fits(
        after_steps(v, run.drop_last()),
        run.last(),
    ))
}

/// No counter has come to its end.
pub open spec fn counts_on(v: RxView, step: RxStep) -> bool {
    match step {
        RxStep::Examine { rejected, .. } => v.stats.rejected + rejected <= u64::MAX,
        RxStep::EndSearch { .. } => v.stats.detections < u64::MAX,
        _ => true,
    }
}

/// No counter comes to its end in these steps.
pub open spec fn steps_count_on(v: RxView, run: Seq<RxStep>) -> bool
    decreases run.len(),
{
    run.len() == 0 || (steps_count_on(v, run.drop_last()) && counts_on(
        after_steps(v, run.drop_last()),
        run.last(),
    ))
}

/// How many steps can at most be owed one after the other.
pub open spec fn errands(v: RxView) -> nat {
    match owed(v) {
        NextStep::Search => 3,
        NextStep::Header => 2,
        NextStep::Body => 1,
        NextStep::Progress => 1,
        NextStep::Rest => 0,
    }
}

/// The step settles what is owed.
pub open spec fn settles(v: RxView, step: RxStep) -> bool {
    match step {
        RxStep::BeginSearch => owed(v) == NextStep::Search && search_offset(v) > v.held,
        RxStep::EndSearch { .. } => owed(v) == NextStep::Search,
        RxStep::EndHeader { .. } => owed(v) == NextStep::Header,
        RxStep::EndBody { .. } => owed(v) == NextStep::Body,
        RxStep::Progress => owed(v) == NextStep::Progress,
        _ => false,
    }
}

/// Every block is worked off: each step that settles what is owed leaves less, so
/// after a pass, a header and a frame at most nothing is; and then the next block may
/// come.
pub proof fn every_block_is_worked_off(v: RxView, step: RxStep)
    requires
        v.sound(),
    ensures
        settles(v, step) ==> errands(stepped(v, step)) < errands(v),
        owed(v) == NextStep::Rest <==> errands(v) == 0,
        owed(v) == NextStep::Rest && step is TakeIn ==> step_fits(v, step),
{
}

/// A block that is heard is owed its work: a pass where no frame is under way, and
/// else what has arrived of the frame; one that is not heard is owed nothing.
pub proof fn every_block_that_is_heard_is_owed_its_work(
    v: RxView,
    chunk: int,
    revision: u64,
    active: Band,
    transmitting: bool,
    rearm: bool,
)
    ensures
        ({
            let (after, intake) = taken_in(v, chunk, revision, active, transmitting, rearm);
            &&& !(intake is Admitted) ==> owed(after) == NextStep::Rest
            &&& intake is Admitted ==> (owed(after) == NextStep::Search <==> v.state
                == RxState::Search)
            &&& intake is Admitted && v.state == RxState::Header ==> (owed(after)
                == NextStep::Header <==> v.total() + chunk >= v.need)
            &&& intake is Admitted && v.state == RxState::Body ==> owed(after) == (if v.total()
                + chunk >= v.need {
                NextStep::Body
            } else {
                NextStep::Progress
            })
        }),
{
}

/// Every good and every bad frame answers a detection of its own, and so does the
/// frame under way.
pub open spec fn accounted(v: RxView) -> bool {
    v.stats.rx_ok + v.stats.rx_bad + (if v.state == RxState::Search {
        0int
    } else {
        1
    }) <= v.stats.detections
}

/// No counter is lower in `b` than in `a`.
pub open spec fn no_counter_fell(a: Stats, b: Stats) -> bool {
    &&& a.rx_ok <= b.rx_ok
    &&& a.rx_bad <= b.rx_bad
    &&& a.detections <= b.detections
    &&& a.rejected <= b.rejected
}

/// However the audio comes, each preamble that is found ends in at most one good or
/// one bad frame, so good and bad frames together never exceed the detections; and no
/// counter ever falls.
pub proof fn every_frame_answers_a_detection(v: RxView, run: Seq<RxStep>)
    requires
        accounted(v),
        steps_fit(v, run),
        steps_count_on(v, run),
    ensures
        accounted(after_steps(v, run)),
        no_counter_fell(v.stats, after_steps(v, run).stats),
    decreases run.len(),
{
    if run.len() > 0 {
        every_frame_answers_a_detection(v, run.drop_last());
        let u = after_steps(v, run.drop_last());
        match run.last() {
            RxStep::EndSearch { scan, .. } => {
                if scan.hit is Some {
                    assert(counted(u.stats.detections, 1) == u.stats.detections + 1);
                }
            },
            RxStep::Examine { rejected, .. } => {
                assert(counted(u.stats.rejected, rejected) == u.stats.rejected + rejected);
            },
            RxStep::EndHeader { .. } => {
                assert(counted(u.stats.rx_bad, 1) == u.stats.rx_bad + 1);
            },
            RxStep::EndBody { .. } => {
                assert(counted(u.stats.rx_ok, 1) == u.stats.rx_ok + 1);
                assert(counted(u.stats.rx_bad, 1) == u.stats.rx_bad + 1);
            },
            _ => {},
        }
    }
}

/// What was recorded while we made noise ourselves is never heard: the block and all
/// that was held before it go, with a frame half received, and nothing is counted. The
/// search starts afresh behind it, and whatever comes then, no preamble and no frame
/// is ever found before that place.
pub proof fn our_own_packets_are_not_heard(
    v: RxView,
    chunk: nat,
    revision: u64,
    active: Band,
    transmitting: bool,
    rearm: bool,
    run: Seq<RxStep>,
)
    requires
        0 <= v.origin,
        0 <= v.held,
        transmitting || rearm,
        steps_fit(
            taken_in(v, chunk as int, revision, active, transmitting, rearm).0,
            run,
        ),
    ensures
        ({
            let (after, intake) = taken_in(v, chunk as int, revision, active, transmitting, rearm);
            let behind = v.total() + chunk;
            let later = after_steps(after, run);
            &&& !(intake is Admitted)
            &&& after.held == 0
            &&& after.origin == behind
            &&& after.search == behind
            &&& after.state == RxState::Search
            &&& after.stats == (Stats { state: after.stats.state, ..v.stats })
            &&& behind <= later.origin
            &&& later.state != RxState::Search ==> behind <= later.data_start
            &&& forall|scan: Scan|
                #[trigger] scan_inside(later, scan) ==> (scan.hit matches Some(h) ==> behind
                    <= h.at)
        }),
{
    let after = taken_in(v, chunk as int, revision, active, transmitting, rearm).0;
    lemma_positions_never_go_back(after, run);
}

proof fn lemma_positions_never_go_back(v: RxView, run: Seq<RxStep>)
    requires
        0 <= v.origin,
        0 <= v.held,
        v.state == RxState::Search,
        steps_fit(v, run),
    ensures
        ({
            let later = after_steps(v, run);
            &&& v.origin <= later.origin
            &&& 0 <= later.held
            &&& later.state != RxState::Search ==> v.origin <= later.data_start
        }),
    decreases run.len(),
{
    if run.len() > 0 {
        lemma_positions_never_go_back(v, run.drop_last());
        lemma_longest_frame(PROFILE_COUNT as nat);
    }
}

/// A retune empties the receiver and moves it to the band in use.
pub proof fn a_retune_starts_over(
    v: RxView,
    chunk: int,
    revision: u64,
    active: Band,
    transmitting: bool,
    rearm: bool,
)
    requires
        revision != v.revision,
    ensures
        ({
            let (after, intake) = taken_in(v, chunk, revision, active, transmitting, rearm);
            &&& intake == Intake::Retuned
            &&& after.band == active
            &&& after.revision == revision
            &&& after.held == 0
            &&& after.state == RxState::Search
            &&& after.search == v.total() + chunk
        }),
{
}

/// A chirp that was found is not found again: the search goes on behind it, and
/// behind the frame that follows it.
pub proof fn a_chirp_is_found_once(v: RxView, scan: Scan, active_profile: usize, ok: bool)
    requires
        scan.hit is Some,
    ensures
        searched(v, scan, active_profile).search >= scan.hit.unwrap().at + crate::samples_in(
            scan.hit.unwrap().band.chirp_ms as int,
        ),
        searched(v, scan, active_profile).state == RxState::Header,
        body_done(v, ok).search >= v.search,
        body_done(v, ok).search >= v.need,
{
}

/// By the time the header is tried, every sample of every place that is tried has
/// arrived.
pub proof fn headers_are_tried_when_they_have_arrived(v: RxView, i: int)
    requires
        v.sound(),
        v.state == RxState::Header,
        v.due(),
        0 <= i < packet::all_probes(v.cands, v.base(), offsets()).len(),
    ensures
        ({
            let probe = packet::all_probes(v.cands, v.base(), offsets())[i];
            &&& profile::profile_of(probe.profile_id as int) matches Some(p)
            &&& crate::mfsk::window_inside(
                v.held,
                probe.start as int,
                packet::header_symbol_count(p),
                p,
            )
        }),
{
    lemma_offsets_reachable(v);
    lemma_all_probes(v.cands, v.base(), offsets());
    lemma_longest_header(v.cands);
    let probe = packet::all_probes(v.cands, v.base(), offsets())[i];
    let k = choose|k: int| 0 <= k < v.cands.len() && v.cands[k] == probe.profile_id;
    assert(header_span(v.cands[k] as int) <= longest_header(v.cands));
}

proof fn lemma_other_starts(base: int, lock_off: int, offs: Seq<isize>)
    requires
        packet::reachable(base, offs),
        forall|i: int| 0 <= i < offs.len() ==> -MAX_OFF <= #[trigger] offs[i] <= MAX_OFF,
    ensures
        forall|i: int|
            0 <= i < other_starts(base, lock_off, offs).len() ==> 0 <= #[trigger] other_starts(
                base,
                lock_off,
                offs,
            )[i] <= base + MAX_OFF,
    decreases offs.len(),
{
    if offs.len() > 0 {
        let rest = offs.drop_last();
        assert forall|i: int| 0 <= i < rest.len() implies -MAX_OFF <= #[trigger] rest[i]
            <= MAX_OFF by {
            assert(rest[i] == offs[i]);
        }
        assert forall|i: int| 0 <= i < rest.len() implies i64::MIN <= base + #[trigger] rest[i]
            <= isize::MAX by {
            assert(rest[i] == offs[i]);
        }
        lemma_other_starts(base, lock_off, rest);
        let o = offs[offs.len() - 1];
        assert(-MAX_OFF <= o <= MAX_OFF);
        assert(base + o <= isize::MAX);
        let before = other_starts(base, lock_off, rest);
        let all = other_starts(base, lock_off, offs);
        assert forall|i: int| 0 <= i < all.len() implies 0 <= #[trigger] all[i] <= base
            + MAX_OFF by {
            if i < before.len() {
                assert(all[i] == before[i]);
            }
        }
    }
}

/// By the time a frame is tried, every sample of it has arrived, at every offset
/// that does not lie before the samples held.
pub proof fn frames_are_tried_when_they_have_arrived(v: RxView, i: int)
    requires
        v.sound(),
        v.state == RxState::Body,
        v.due(),
        0 <= i < 1 + other_starts(v.base(), v.lock_off, offsets()).len(),
    ensures
        ({
            let starts = seq![(v.base() + v.lock_off) as isize] + other_starts(
                v.base(),
                v.lock_off,
                offsets(),
            );
            let p = profile::profile_of(v.lock_pid as int).unwrap();
            starts[i] >= 0 ==> crate::mfsk::window_inside(
                v.held,
                starts[i] as int,
                packet::frame_symbol_count(v.lock_len as int, p),
                p,
            )
        }),
{
    lemma_offsets_reachable(v);
    lemma_other_starts(v.base(), v.lock_off, offsets());
    let others = other_starts(v.base(), v.lock_off, offsets());
    let starts = seq![(v.base() + v.lock_off) as isize] + others;
    if i > 0 {
        assert(starts[i] == others[i - 1]);
    } else {
        assert(v.base() + v.lock_off <= v.held);
    }
}

/// What there is to hear at every place.
pub type Ear = spec_fn(Probe) -> (Seq<u8>, u128);

/// How a header trial ends that hears this.
pub open spec fn header_trial_end(t: HeaderTrialView, hear: Ear) -> HeaderTrialView
    decreases t.left.len(),
{
    if t.left.len() == 0 {
        t
    } else {
        header_trial_end(header_tried(t, hear(t.left[0]).0, hear(t.left[0]).1), hear)
    }
}

/// A place gives a header that names the profile it was read with.
pub open spec fn gives_header(p: Probe, hear: Ear) -> bool {
    let h = packet::header_result(hear(p).0, p.start, hear(p).1, MAX_PAYLOAD);
    h.ok && h.profile_id == Some(p.profile_id)
}

/// The first place that gives a header is the one the receiver locks to, whatever
/// stands behind it.
pub proof fn the_first_header_found_is_locked(t: HeaderTrialView, hear: Ear, k: int)
    requires
        t.found is None,
        0 <= k < t.left.len(),
        gives_header(t.left[k], hear),
        forall|j: int| 0 <= j < k ==> !gives_header(#[trigger] t.left[j], hear),
    ensures
        header_trial_end(t, hear).found == Some(
            HeaderLock {
                profile_id: t.left[k].profile_id,
                offset: (t.left[k].start - t.base) as i64,
                length: packet::header_result(
                    hear(t.left[k]).0,
                    t.left[k].start,
                    hear(t.left[k]).1,
                    MAX_PAYLOAD,
                ).length,
                confidence: hear(t.left[k]).1,
            },
        ),
    decreases k,
{
    let next = header_tried(t, hear(t.left[0]).0, hear(t.left[0]).1);
    if k == 0 {
        assert(next.left.len() == 0);
        assert(header_trial_end(next, hear) == next);
    } else {
        assert(!gives_header(t.left[0], hear));
        assert(next.left == t.left.skip(1));
        assert forall|j: int| 0 <= j < k - 1 implies !gives_header(
            #[trigger] next.left[j],
            hear,
        ) by {
            assert(next.left[j] == t.left[j + 1]);
        }
        assert(next.left[k - 1] == t.left[k]);
        the_first_header_found_is_locked(next, hear, k - 1);
    }
}

/// Where no place gives a header, the receiver locks to nothing.
pub proof fn without_a_header_nothing_is_locked(t: HeaderTrialView, hear: Ear)
    requires
        t.found is None,
        forall|j: int| 0 <= j < t.left.len() ==> !gives_header(#[trigger] t.left[j], hear),
    ensures
        header_trial_end(t, hear).found is None,
    decreases t.left.len(),
{
    if t.left.len() > 0 {
        let next = header_tried(t, hear(t.left[0]).0, hear(t.left[0]).1);
        assert(!gives_header(t.left[0], hear));
        assert forall|j: int| 0 <= j < next.left.len() implies !gives_header(
            #[trigger] next.left[j],
            hear,
        ) by {
            assert(next.left[j] == t.left[j + 1]);
        }
        without_a_header_nothing_is_locked(next, hear);
    }
}

/// How a body trial ends that hears this.
pub open spec fn body_trial_end(t: BodyTrialView, hear: spec_fn(isize) -> (Seq<u8>, u128)) -> BodyTrialView
    decreases t.left.len(),
{
    if t.left.len() == 0 {
        t
    } else {
        body_trial_end(body_tried(t, hear(t.left[0]).0, hear(t.left[0]).1), hear)
    }
}

/// What a place gives as a frame.
pub open spec fn frame_at(at: isize, length: usize, hear: spec_fn(isize) -> (Seq<u8>, u128)) -> packet::DecodeView {
    packet::frame_result(hear(at).0, at, hear(at).1, length)
}

/// The first place that gives a frame ends the trial with it, and the tries are
/// counted up to there.
pub proof fn the_first_frame_read_is_kept(
    t: BodyTrialView,
    hear: spec_fn(isize) -> (Seq<u8>, u128),
    k: int,
)
    requires
        0 <= k < t.left.len(),
        frame_at(t.left[k], t.length, hear).ok,
        forall|j: int| 0 <= j < k ==> !frame_at(#[trigger] t.left[j], t.length, hear).ok,
    ensures
        body_trial_end(t, hear).result == Some(frame_at(t.left[k], t.length, hear)),
        body_trial_end(t, hear).tries == t.tries + k + 1,
    decreases k,
{
    let next = body_tried(t, hear(t.left[0]).0, hear(t.left[0]).1);
    if k == 0 {
        assert(next.left.len() == 0);
        assert(body_trial_end(next, hear) == next);
    } else {
        assert(!frame_at(t.left[0], t.length, hear).ok);
        assert forall|j: int| 0 <= j < k - 1 implies !frame_at(
            #[trigger] next.left[j],
            t.length,
            hear,
        ).ok by {
            assert(next.left[j] == t.left[j + 1]);
        }
        assert(next.left[k - 1] == t.left[k]);
        the_first_frame_read_is_kept(next, hear, k - 1);
    }
}

/// Where no place gives a frame, all are tried, and what is reported is why the
/// offset of the header failed.
pub proof fn a_frame_is_dropped_only_after_every_offset(
    t: BodyTrialView,
    hear: spec_fn(isize) -> (Seq<u8>, u128),
)
    requires
        t.left.len() > 0,
        t.result is None,
        forall|j: int| 0 <= j < t.left.len() ==> !frame_at(#[trigger] t.left[j], t.length, hear).ok,
    ensures
        body_trial_end(t, hear).result == Some(frame_at(t.left[0], t.length, hear)),
        body_trial_end(t, hear).tries == t.tries + t.left.len(),
{
    let next = body_tried(t, hear(t.left[0]).0, hear(t.left[0]).1);
    assert(!frame_at(t.left[0], t.length, hear).ok);
    assert forall|j: int| 0 <= j < next.left.len() implies !frame_at(
        #[trigger] next.left[j],
        t.length,
        hear,
    ).ok by {
        assert(next.left[j] == t.left[j + 1]);
    }
    lemma_failures_pile_up(next, hear);
}

proof fn lemma_failures_pile_up(t: BodyTrialView, hear: spec_fn(isize) -> (Seq<u8>, u128))
    requires
        t.result is Some,
        forall|j: int| 0 <= j < t.left.len() ==> !frame_at(#[trigger] t.left[j], t.length, hear).ok,
    ensures
        body_trial_end(t, hear).result == t.result,
        body_trial_end(t, hear).tries == t.tries + t.left.len(),
    decreases t.left.len(),
{
    if t.left.len() > 0 {
        let next = body_tried(t, hear(t.left[0]).0, hear(t.left[0]).1);
        assert(!frame_at(t.left[0], t.length, hear).ok);
        assert forall|j: int| 0 <= j < next.left.len() implies !frame_at(
            #[trigger] next.left[j],
            t.length,
            hear,
        ).ok by {
            assert(next.left[j] == t.left[j + 1]);
        }
        lemma_failures_pile_up(next, hear);
    }
}

/// A place from which a frame is heard with no more than one bit of every codeword
/// wrong.
pub open spec fn carries(bits: Seq<u8>, payload: Seq<u8>, id: int) -> bool {
    let n = 14 * packet::padded_len(payload.len() as int);
    n <= bits.len() && fec::one_flip_per_wire_codeword(
        packet::frame_bits(payload, id),
        bits.take(n),
    )
}

/// A frame that is heard is received: where the first place with a readable header
/// carries it, the receiver locks to its profile and length, whatever profile it
/// was set to, and reads the payload there at the first try.
pub proof fn a_frame_that_is_heard_is_received(
    t: HeaderTrialView,
    hear: Ear,
    k: int,
    payload: Seq<u8>,
    confidence: u128,
)
    requires
        t.found is None,
        0 <= k < t.left.len(),
        payload.len() <= MAX_PAYLOAD,
        profile::profile_of(t.left[k].profile_id as int) is Some,
        carries(hear(t.left[k]).0, payload, t.left[k].profile_id as int),
        forall|j: int| 0 <= j < k ==> !gives_header(#[trigger] t.left[j], hear),
    ensures
        header_trial_end(t, hear).found == Some(
            HeaderLock {
                profile_id: t.left[k].profile_id,
                offset: (t.left[k].start - t.base) as i64,
                length: payload.len() as usize,
                confidence: hear(t.left[k]).1,
            },
        ),
        packet::frame_result(
            hear(t.left[k]).0,
            t.left[k].start,
            confidence,
            payload.len() as usize,
        ) == packet::frame_read(payload, t.left[k].start, confidence),
{
    let p = t.left[k];
    packet::frames_survive_one_flip_per_codeword(
        payload,
        p.profile_id as int,
        hear(p).0,
        p.start,
        hear(p).1,
        MAX_PAYLOAD,
    );
    packet::frames_survive_one_flip_per_codeword(
        payload,
        p.profile_id as int,
        hear(p).0,
        p.start,
        confidence,
        MAX_PAYLOAD,
    );
    the_first_header_found_is_locked(t, hear, k);
}

// --------------------------------------------------------------------------- //
// Where the search goes on
// --------------------------------------------------------------------------- //
/// Behind a frame, read or damaged, the search goes on where the frame ended: nothing
/// that was searched is searched again, and no place from there on is passed over.
/// Nothing else moves but the state and the one counter that says which it was.
pub proof fn the_search_goes_on_where_a_frame_ends(v: RxView, ok: bool, at: int)
    ensures
        ({
            let after = body_done(v, ok);
            &&& after.search == v.search || after.search == v.need
            &&& v.search <= after.search
            &&& v.need <= after.search
            &&& v.search <= v.need && v.need <= at ==> after.search <= at
            &&& after.search == body_done(v, !ok).search
            &&& after.state == RxState::Search
            &&& !after.fresh
            &&& after.origin == v.origin && after.held == v.held && after.band == v.band
            &&& after.revision == v.revision
            &&& after.stats == (Stats {
                rx_ok: after.stats.rx_ok,
                rx_bad: after.stats.rx_bad,
                ..v.stats
            })
            &&& after.stats.rx_ok == (if ok {
                counted(v.stats.rx_ok, 1)
            } else {
                v.stats.rx_ok
            })
            &&& after.stats.rx_bad == (if ok {
                v.stats.rx_bad
            } else {
                counted(v.stats.rx_bad, 1)
            })
        }),
{
}

/// A chirp that starts where a frame ended, or later, is not missed: whether the frame
/// was read or damaged, the next pass starts no later than the chirp does, as long as
/// the receiver still holds it.
pub proof fn a_chirp_behind_a_frame_is_searched(v: RxView, ok: bool, chunk: int, at: int)
    requires
        0 <= chunk,
        0 <= v.origin <= at,
        v.search <= v.need,
        v.need <= at,
        v.total() + chunk - max_hold() <= at,
    ensures
        ({
            let next = admitted(body_done(v, ok), chunk);
            &&& owed(next) == NextStep::Search
            &&& next.origin + search_offset(next) <= at
            &&& next.total() == v.total() + chunk
        }),
{
}

/// While a frame is under way, the search stands at its first sample; so it goes on
/// exactly where the frame ended.
pub open spec fn search_waits(v: RxView) -> bool {
    v.state != RxState::Search ==> v.search == v.data_start
}

/// Whatever is done, the search stands at the first sample of the frame under way.
pub proof fn the_search_waits_at_the_frame(v: RxView, run: Seq<RxStep>)
    requires
        search_waits(v),
        steps_fit(v, run),
    ensures
        search_waits(after_steps(v, run)),
    decreases run.len(),
{
    if run.len() > 0 {
        the_search_waits_at_the_frame(v, run.drop_last());
    }
}

/// So once a frame was dealt with, well or badly, the search stands at its end.
pub proof fn a_frame_is_passed_exactly(v: RxView, ok: bool)
    requires
        v.sound(),
        v.state == RxState::Body,
        search_waits(v),
    ensures
        body_done(v, ok).search == v.need,
        body_done(v, ok).search == v.data_start + 180 + packet::frame_sample_count(
            v.lock_len as int,
            profile::profile_of(v.lock_pid as int).unwrap(),
        ),
{
}

/// A pass without a preamble moves the search by as many places as it looked at, from
/// where it started: no place is passed over and none is looked at twice. Nothing else
/// changes, and the block is dealt with.
pub proof fn a_pass_moves_the_search_by_what_it_saw(v: RxView, scan: Scan, active_profile: usize)
    requires
        scan.hit is None,
        scan.off == search_offset(v),
        v.origin <= v.search || scan.consumed > 0,
    ensures
        ({
            let after = searched(v, scan, active_profile);
            &&& after.origin + search_offset(after) == v.origin + search_offset(v)
                + scan.consumed
            &&& !after.fresh
            &&& (RxView { search: v.search, fresh: v.fresh, ..after }) == v
            &&& scan.consumed == 0 ==> after.search == v.search
        }),
{
}

/// A preamble is answered by waiting for its header, in any profile, behind the chirp and
/// the gap, on the band it was found on; nothing that is held changes, and it counts as
/// one detection.
pub proof fn a_preamble_is_waited_on(v: RxView, scan: Scan, h: Hit, active_profile: usize, id: int)
    requires
        scan.hit == Some(h),
        profile::profile_of(id) is Some,
    ensures
        ({
            let after = searched(v, scan, active_profile);
            let p = profile::profile_of(id).unwrap();
            &&& after.state == RxState::Header
            &&& after.fresh
            &&& after.band == h.band
            &&& after.data_start == h.at + crate::samples_in(h.band.chirp_ms as int) + 960
            &&& after.search == after.data_start
            &&& after.cands.contains(id as usize)
            &&& active_profile < 3 ==> after.cands[0] == active_profile
            &&& after.need >= after.data_start + 180 + packet::symbols_span(
                packet::header_symbol_count(p),
                p,
            )
            &&& after.origin == v.origin && after.held == v.held && after.revision == v.revision
            &&& after.stats == (Stats {
                detections: counted(v.stats.detections, 1),
                ..v.stats
            })
        }),
{
    let cands = profile::preference(active_profile as int);
    profile::preference_tries_every_profile_once(active_profile as int);
    assert(cands.contains(id as usize));
    let k = choose|k: int| 0 <= k < cands.len() && cands[k] == id as usize;
    lemma_longest_header(cands);
    assert(header_span(cands[k] as int) <= longest_header(cands));
    assert(crate::samples_in(GAP_MS as int) == 960);
}

/// The wait for a header is no longer than the longest header there is to try.
pub proof fn the_longest_header_is_one_of_them(ids: Seq<usize>)
    ensures
        longest_header(ids) == 0 || exists|i: int|
            0 <= i < ids.len() && header_span((#[trigger] ids[i]) as int) == longest_header(ids),
        forall|i: int|
            0 <= i < ids.len() ==> header_span((#[trigger] ids[i]) as int) <= longest_header(ids),
        0 <= longest_header(ids),
    decreases ids.len(),
{
    lemma_longest_header(ids);
    if ids.len() > 0 {
        let rest = ids.drop_last();
        the_longest_header_is_one_of_them(rest);
        let n = ids.len() - 1;
        assert(ids[n] == ids.last());
        if longest_header(ids) != 0 && longest_header(ids) == longest_header(rest) {
            let i = choose|i: int|
                0 <= i < rest.len() && header_span((#[trigger] rest[i]) as int) == longest_header(
                    rest,
                );
            assert(ids[i] == rest[i]);
        }
    }
}

/// A header that would not decode counts as one bad frame and sends the receiver back to
/// the search, which goes on behind the chirp; nothing else changes.
pub proof fn a_header_that_fails_costs_nothing_else(v: RxView)
    ensures
        ({
            let after = header_done(v, None);
            &&& after.state == RxState::Search
            &&& !after.fresh
            &&& after.search == v.search
            &&& (RxView { state: v.state, fresh: v.fresh, stats: v.stats, ..after }) == v
            &&& after.stats == (Stats { rx_bad: counted(v.stats.rx_bad, 1), ..v.stats })
        }),
{
}

/// A header that was read makes the receiver wait for the frame it announces, in the
/// profile that it names, to the end of the latest place it can stand at; nothing else
/// changes, and nothing is counted yet.
pub proof fn a_header_is_believed(v: RxView, l: HeaderLock)
    requires
        profile::profile_of(l.profile_id as int) is Some,
    ensures
        ({
            let after = header_done(v, Some(l));
            let p = profile::profile_of(l.profile_id as int).unwrap();
            &&& after.state == RxState::Body
            &&& after.fresh
            &&& after.lock_pid == l.profile_id
            &&& after.lock_off == l.offset
            &&& after.lock_len == l.length
            &&& after.need == v.data_start + 180 + packet::frame_sample_count(
                l.length as int,
                p,
            )
            &&& (RxView {
                state: v.state,
                fresh: v.fresh,
                lock_pid: v.lock_pid,
                lock_off: v.lock_off,
                lock_len: v.lock_len,
                need: v.need,
                ..after
            }) == v
        }),
{
}

/// A counter that is raised goes up by one each time, and starts over behind its largest
/// value.
pub proof fn counters_count(n: u64, a: nat, b: nat)
    ensures
        counted(n, 0) == n,
        n < u64::MAX ==> counted(n, 1) == n + 1,
        counted(u64::MAX, 1) == 0,
        counted(counted(n, a), b) == counted(n, a + b),
{
    assert(((n + a) % 0x1_0000_0000_0000_0000 + b) % 0x1_0000_0000_0000_0000 == (n + a + b)
        % 0x1_0000_0000_0000_0000);
}

/// Of several detectors the strongest hit counts, the first of those that tie; a detector
/// that found nothing changes no hit. As many places count as seen as the detector that
/// saw most has looked at.
pub proof fn the_strongest_detector_wins(
    v: RxView,
    scan: Scan,
    band: Band,
    sc: Seq<i32>,
    found: Option<usize>,
)
    requires
        sc.len() <= usize::MAX,
    ensures
        ({
            let after = scan_after(v, scan, band, sc, found);
            &&& after.off == scan.off
            &&& after.consumed >= scan.consumed && after.consumed >= sc.len()
            &&& after.consumed == scan.consumed || after.consumed == sc.len()
            &&& found is None ==> after.hit == scan.hit
            &&& found matches Some(j) ==> {
                let new = Hit {
                    band,
                    score: sc[j as int],
                    at: (v.origin + scan.off + j) as i64,
                };
                &&& after.hit == Some(new) || after.hit == scan.hit
                &&& scan.hit is None ==> after.hit == Some(new)
                &&& scan.hit matches Some(h) ==> {
                    &&& after.hit == Some(new) <==> chirp::above(new.score, h.score) || new == h
                    &&& after.hit matches Some(best) && !chirp::above(h.score, best.score)
                        && !chirp::above(new.score, best.score)
                }
            }
        }),
{
}

/// The statistics of a pass: the noise floor is the middle score, the peak the highest
/// one, the peak hold never falls below either, and rejected peaks are counted. Nothing
/// else is touched.
pub proof fn a_pass_is_measured(stats: Stats, sc: Seq<i32>, rejected: nat, i: int)
    requires
        0 <= i < sc.len(),
    ensures
        ({
            let after = stats_after(stats, sc, rejected);
            &&& after.noise_score == chirp::middle(sc)
            &&& sc[i] <= after.peak_score
            &&& sc.contains(after.peak_score)
            &&& after.peak_hold == stats.peak_hold || after.peak_hold == after.peak_score
            &&& !chirp::above(after.peak_score, after.peak_hold)
            &&& !chirp::above(stats.peak_hold, after.peak_hold)
            &&& after.rejected == counted(stats.rejected, rejected)
            &&& after == (Stats {
                noise_score: after.noise_score,
                peak_score: after.peak_score,
                peak_hold: after.peak_hold,
                rejected: after.rejected,
                ..stats
            })
        }),
{
    let top = chirp::strongest_of(sc, 0, sc.len() - 1);
    chirp::lemma_strongest_of(sc, 0, sc.len() - 1);
    assert(sc[top] == stats_after(stats, sc, rejected).peak_score);
}

/// While a frame is under way, no sample of any place it can stand at is dropped; while
/// the receiver searches, none that was not searched yet, and not the 50 ms before it
/// either. What is older than the longest frame and three seconds is left out.
pub proof fn what_the_state_reads_is_kept(v: RxView, chunk: int, at: int)
    requires
        0 <= chunk,
        0 <= v.held,
        0 <= v.origin <= at,
        v.total() + chunk - max_hold() <= at,
        v.state == RxState::Search ==> v.search - 2_400 <= at,
        v.state != RxState::Search ==> v.data_start - 180 <= at,
    ensures
        admitted(v, chunk).origin <= at,
        v.origin <= admitted(v, chunk).origin,
        admitted(v, chunk).total() == v.total() + chunk,
        (RxView { origin: v.origin, held: v.held, fresh: v.fresh, ..admitted(v, chunk) }) == v,
{
    assert(crate::samples_in(LEAD_GUARD_MS as int) == 2_400);
}

/// What is dropped is of no use: a block makes the receiver let go only of samples that
/// lie before what the state reads, or are older than it holds on to.
pub proof fn what_is_of_no_use_is_dropped(v: RxView, chunk: int, at: int)
    requires
        0 <= chunk,
        0 <= v.held,
        0 <= v.origin,
        0 <= at < v.total() + chunk,
        v.state == RxState::Search ==> at < v.search - 2_400,
        v.state != RxState::Search ==> at < v.data_start - 180,
    ensures
        at < admitted(v, chunk).origin,
{
    assert(crate::samples_in(LEAD_GUARD_MS as int) == 2_400);
}

/// A block is heard exactly where the bands have not moved and we neither transmit nor
/// have just stopped to; then as many samples are dropped from the front as the first
/// sample held moves on. Whether we have just stopped is told back.
pub proof fn blocks_are_heard_while_we_are_quiet(
    v: RxView,
    chunk: int,
    revision: u64,
    active: Band,
    transmitting: bool,
    rearm: bool,
)
    requires
        v.sound(),
        0 <= chunk,
        v.held + chunk <= isize::MAX / 4,
    ensures
        ({
            let (after, intake) = taken_in(v, chunk, revision, active, transmitting, rearm);
            &&& intake is Admitted <==> revision == v.revision && !transmitting && !rearm
            &&& intake is Retuned <==> revision != v.revision
            &&& intake is Retuned ==> after.stats == v.stats && !after.fresh
            &&& intake matches Intake::Admitted { drop } ==> drop == after.origin - v.origin
                && after.stats == v.stats && after.state == v.state && after.fresh
            &&& intake matches Intake::Muted { rearmed } ==> rearmed == !transmitting
                && after.stats.state == (if transmitting {
                RxState::Transmitting
            } else {
                RxState::Search
            }) && after.band == v.band
            &&& after.total() == v.total() + chunk
            &&& after.revision == revision
        }),
{
    lemma_longest_frame(PROFILE_COUNT as nat);
}

/// The places at which a frame is tried again are those of the other offsets, in their
/// order, each once: what more offsets add comes behind, and one offset gives its own
/// place unless it is the one tried already or lies before the samples held.
pub proof fn every_other_offset_is_tried(base: int, lock_off: int, a: Seq<isize>, b: Seq<isize>, o: isize)
    ensures
        other_starts(base, lock_off, a + b) == other_starts(base, lock_off, a) + other_starts(
            base,
            lock_off,
            b,
        ),
        other_starts(base, lock_off, seq![o]) == (if o == lock_off || base + o < 0 {
            Seq::empty()
        } else {
            seq![(base + o) as isize]
        }),
        other_starts(base, lock_off, Seq::empty()).len() == 0,
    decreases b.len(),
{
    if b.len() == 0 {
        assert(a + b =~= a);
        assert(other_starts(base, lock_off, a) + other_starts(base, lock_off, b) =~= other_starts(
            base,
            lock_off,
            a,
        ));
    } else {
        every_other_offset_is_tried(base, lock_off, a, b.drop_last(), o);
        assert((a + b).drop_last() =~= a + b.drop_last());
        assert((a + b).last() == b.last());
        assert(other_starts(base, lock_off, a + b) =~= other_starts(base, lock_off, a)
            + other_starts(base, lock_off, b));
    }
    let one = seq![o];
    assert(one.drop_last() =~= Seq::<isize>::empty());
    assert(other_starts(base, lock_off, one.drop_last()) =~= Seq::<isize>::empty());
    assert(other_starts(base, lock_off, one) =~= (if o == lock_off || base + o < 0 {
        Seq::empty()
    } else {
        seq![(base + o) as isize]
    }));
}

/// The percentage of a frame is the share of its samples that has arrived, rounded down;
/// nothing before its first sample, and never more than 99.
pub proof fn progress_is_the_share_that_arrived(v: RxView)
    requires
        v.data_start < v.need,
    ensures
        ({
            let pct = rx_percent(v) as int;
            let (here, all) = (v.total() - v.data_start, v.need - v.data_start);
            &&& 0 <= pct <= 99
            &&& here < 0 ==> pct == 0
            &&& 0 <= here < all ==> pct * all <= 100 * here < (pct + 1) * all
            &&& all <= here ==> pct == 99
        }),
{
    let (here, all) = (v.total() - v.data_start, v.need - v.data_start);
    let part = 100 * here;
    let q = part / all;
    vstd::arithmetic::div_mod::lemma_fundamental_div_mod(part, all);
    assert(q * all <= part < (q + 1) * all) by (nonlinear_arith)
        requires
            part == all * q + part % all,
            0 <= part % all < all,
    ;
    if 0 <= here < all {
        assert(0 <= q <= 99) by (nonlinear_arith)
            requires
                q * all <= part < (q + 1) * all,
                0 <= part < 100 * all,
                0 < all,
        ;
    }
    if all <= here {
        assert(99 < q) by (nonlinear_arith)
            requires
                part < (q + 1) * all,
                100 * all <= part,
                0 < all,
        ;
    }
}

/// The receiver holds on to every frame it admits and three seconds more, and to no more
/// than the longest of them takes.
pub proof fn every_frame_is_held(id: int, len: int)
    requires
        profile::profile_of(id) is Some,
        0 <= len <= MAX_PAYLOAD,
    ensures
        packet::frame_sample_count(len, profile::profile_of(id).unwrap()) + 144_000 <= max_hold(),
        exists|k: int|
            (#[trigger] profile::profile_of(k)) is Some && packet::frame_sample_count(
                MAX_PAYLOAD as int,
                profile::profile_of(k).unwrap(),
            ) + 144_000 == max_hold(),
{
    let p = profile::profile_of(id).unwrap();
    lemma_longest_frame(3);
    packet::longer_payloads_take_no_less(len, MAX_PAYLOAD as int, p);
    assert(longest_frame(0) == 0);
    assert(longest_frame(1) == packet::larger(
        longest_frame(0),
        packet::frame_sample_count(MAX_PAYLOAD as int, profile::profile_of(0).unwrap()),
    ));
    assert(longest_frame(2) == packet::larger(
        longest_frame(1),
        packet::frame_sample_count(MAX_PAYLOAD as int, profile::profile_of(1).unwrap()),
    ));
    assert(longest_frame(3) == packet::larger(
        longest_frame(2),
        packet::frame_sample_count(MAX_PAYLOAD as int, profile::profile_of(2).unwrap()),
    ));
    lemma_small_frames(0, MAX_PAYLOAD as int);
    lemma_small_frames(1, MAX_PAYLOAD as int);
    lemma_small_frames(2, MAX_PAYLOAD as int);
    assert(profile::profile_of(0) is Some && profile::profile_of(1) is Some && profile::profile_of(
        2,
    ) is Some);
}

/// A pass starts at the first sample that was not searched yet, or at the first one held
/// where that is gone; where it has not arrived, the block is dealt with. Beginning a
/// pass changes nothing else but what the statistics say the receiver does.
pub proof fn a_pass_starts_where_the_search_stands(v: RxView)
    ensures
        v.origin + search_offset(v) == (if v.origin < v.search {
            v.search
        } else {
            v.origin
        }),
        search_begun(v).fresh <==> v.fresh && v.search <= v.total() && v.origin <= v.total(),
        search_begun(v).stats == (Stats { state: RxState::Search, ..v.stats }),
        (RxView { fresh: v.fresh, stats: v.stats, ..search_begun(v) }) == v,
{
}

/// What is owed is what the state calls for and has arrived: a pass, a header, a frame or
/// word of its progress; and nothing once the block was dealt with.
pub proof fn what_is_owed_follows_the_state(v: RxView)
    ensures
        owed(v) == NextStep::Search <==> v.fresh && v.state == RxState::Search,
        owed(v) == NextStep::Header <==> v.fresh && v.state == RxState::Header && v.origin + v.held
            >= v.need,
        owed(v) == NextStep::Body <==> v.fresh && v.state == RxState::Body && v.origin + v.held
            >= v.need,
        owed(v) == NextStep::Progress <==> v.fresh && v.state == RxState::Body && v.origin + v.held
            < v.need,
{
}

/// What the log says of a frame: that it is there, with its length, and how many places
/// were tried where that was more than one; or that it was dropped, why, and how many
/// places were tried.
pub proof fn the_log_tells_of_frames(t: BodyTrialView)
    ensures
        ({
            let r = t.result.unwrap();
            let ok = "frame ok ("@ + text::decimal(t.length as nat) + "B)"@;
            &&& r.ok && t.tries <= 1 ==> body_note(t) == event::EventView::Log(Level::Info, ok)
            &&& r.ok && t.tries > 1 ==> body_note(t) == event::EventView::Log(
                Level::Info,
                ok + " after "@ + text::decimal(t.tries) + " sync tries"@,
            )
            &&& !r.ok ==> body_note(t) == event::EventView::Log(
                Level::Warn,
                "frame dropped: "@ + r.reason + " ("@ + text::decimal(t.tries)
                    + " sync offsets tried)"@,
            )
        }),
{
}

/// What the log says of a preamble: its band, its score, and its time in seconds.
pub proof fn the_log_tells_of_preambles(h: Hit)
    ensures
        preamble_note(h) == event::EventView::Log(
            Level::Info,
            "preamble "@ + h.band.name@ + " score="@ + chirp::score_digits(h.score, 2) + " at t="@
                + text::double_text(text::whole_double(h.at as nat) as int, 48_000, 2) + "s"@,
        ),
{
}

/// What the log says of a header: the profile and the band it came on, its length, how
/// clear it was, and how long its frame takes.
pub proof fn the_log_tells_of_headers(l: HeaderLock, band: Band)
    requires
        profile::profile_of(l.profile_id as int) is Some,
    ensures
        ({
            let p = profile::profile_of(l.profile_id as int).unwrap();
            header_note(l, band) == event::EventView::Log(
                Level::Info,
                "header ok: "@ + p.name@ + " on "@ + band.name@ + " "@ + text::decimal(
                    l.length as nat,
                ) + "B conf="@ + packet::confidence_text(l.confidence) + " (~"@ + text::double_text(
                    packet::frame_sample_count(l.length as int, p),
                    48_000,
                    1,
                ) + "s)"@,
            )
        }),
        no_header_note() matches event::EventView::Log(Level::Warn, _),
{
}

/// A header takes 42 symbols, a step apart.
pub proof fn headers_span_their_symbols(id: int)
    ensures
        match profile::profile_of(id) {
            Some(p) => header_span(id) == 41 * p.step_len() + p.symbol_len(),
            None => header_span(id) == 0,
        },
{
    if profile::profile_of(id) is Some {
        packet::lemma_table_sizes(id, 0);
    }
}

/// What the log says when the receiver starts, and when its filters are built anew.
pub proof fn the_log_tells_of_the_receiver(threshold: i32, i: Intake)
    ensures
        listening_note(threshold) == event::EventView::Log(
            Level::Info,
            "RX listening @ "@ + text::decimal(48_000) + " Hz (threshold "@ + chirp::score_digits(
                threshold,
                2,
            ) + ")"@,
        ),
        intake_notes(i).len() == (if i is Retuned {
            1nat
        } else {
            0
        }),
        i is Retuned ==> intake_notes(i)[0] == event::EventView::Log(
            Level::Info,
            "retuned -- matched filters rebuilt"@,
        ),
{
}

/// Places are counted from the first sample held: the frame's own place is where its data
/// begins, and the header is tried at the same distance from it as the offsets say.
pub proof fn places_count_from_the_first_sample_held(v: RxView, i: int)
    requires
        v.sound(),
        v.due(),
        0 <= i < packet::all_probes(v.cands, v.base(), offsets()).len(),
    ensures
        v.origin + v.base() == v.data_start,
        ({
            let probe = packet::all_probes(v.cands, v.base(), offsets())[i];
            &&& -180 <= v.origin + probe.start - v.data_start <= 180
            &&& 0 <= probe.start
            &&& v.cands.contains(probe.profile_id)
        }),
{
    lemma_offsets_reachable(v);
    lemma_all_probes(v.cands, v.base(), offsets());
}

} // verus!

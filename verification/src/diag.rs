//! Diagnostics -- these answer "is the link dead, or is my hardware dead?"
//!
//! What to play, where in a recording to look, and what the findings mean. Levels
//! are counted in units of 2^-102 decibels (see [`DECIBEL`]).
use crate::band;
use crate::band::{audio, tone_freqs, Band};
use crate::chirp;
use crate::chirp::{push_score, push_score_digits, score_above};
use crate::dispatch;
use crate::event;
use crate::framing;
use crate::framing::{parse, FragHeader, Frame, BROADCAST, T_TEXT};
use crate::packet;
use crate::packet::{push_confidence, DecodeResult};
use crate::profile;
use crate::profile::{Profile, PROFILE_COUNT};
use crate::reassembly;
use crate::text;
use crate::text::{
    no_lines, push_bar, push_double, push_fixed, push_left_aligned, push_line, push_right_aligned,
    to_signed_double,
};
use vstd::arithmetic::power2;
use vstd::prelude::*;
use vstd::relations;

verus! {

// --------------------------------------------------------------------------- //
// Self test
// --------------------------------------------------------------------------- //
/// What the self test sends.
pub open spec fn selftest_bytes() -> Seq<u8> {
    seq![115u8, 101, 108, 102, 116, 101, 115, 116, 32] + Seq::new(32, |i: int| i as u8)
}

/// What the self test sends: `selftest ` and the first 32 bytes there are.
pub fn selftest_payload() -> (bytes: Vec<u8>)
    ensures
        bytes@ == selftest_bytes(),
{
    let mut bytes: Vec<u8> = Vec::new();
    bytes.push(115);
    bytes.push(101);
    bytes.push(108);
    bytes.push(102);
    bytes.push(116);
    bytes.push(101);
    bytes.push(115);
    bytes.push(116);
    bytes.push(32);
    let ghost word = bytes@;
    let mut i: u8 = 0;
    while i < 32
        invariant
            i <= 32,
            word.len() == 9,
            bytes@ =~= word + Seq::new(i as nat, |k: int| k as u8),
        decreases 32 - i,
    {
        bytes.push(i);
        i = i + 1;
    }
    assert(bytes@ =~= selftest_bytes());
    bytes
}

/// The self test's payload came back.
pub open spec fn selftest_passed(r: packet::DecodeView) -> bool {
    r.ok && r.payload == selftest_bytes()
}

/// The line of one profile in the self test.
pub open spec fn selftest_result(name: Seq<char>, score: i32, r: packet::DecodeView) -> Seq<char> {
    "  "@ + text::left_aligned(name, 8) + " score="@ + chirp::score_text(score) + " "@ + (
    if selftest_passed(r) {
        "PASS"@
    } else {
        "FAIL "@ + r.reason
    })
}

/// Whether a profile passed the self test, and the line that says so. No sound card
/// is involved, so it separates "is my configuration decodable" from "does my
/// hardware carry it".
pub fn selftest(p: &Profile, score: i32, r: &DecodeResult) -> (out: (bool, String))
    ensures
        out.0 == selftest_passed(r@),
        out.1@ == selftest_result(p.name@, score, r@),
{
    let want = selftest_payload();
    let ok: bool = r.ok && same_bytes(r.payload.as_slice(), want.as_slice());
    let mut line = "  ".to_owned();
    push_left_aligned(&mut line, p.name, 8);
    line.append(" score=");
    push_score(&mut line, score);
    line.append(" ");
    if ok {
        line.append("PASS");
    } else {
        let mut why = "FAIL ".to_owned();
        why.append(r.reason.as_str());
        line.append(why.as_str());
    }
    (ok, line)
}

fn same_bytes(a: &[u8], b: &[u8]) -> (yes: bool)
    ensures
        yes == (a@ == b@),
{
    if a.len() != b.len() {
        return false;
    }
    let mut i: usize = 0;
    while i < a.len()
        invariant
            i <= a@.len(),
            a@.len() == b@.len(),
            forall|k: int| 0 <= k < i ==> #[trigger] a@[k] == b@[k],
        decreases a@.len() - i,
    {
        if a[i] != b[i] {
            return false;
        }
        i = i + 1;
    }
    assert(a@ =~= b@);
    true
}

// --------------------------------------------------------------------------- //
// Probe: which tones does this hardware carry?
// --------------------------------------------------------------------------- //
/// Samples of each probe tone: 300 ms.
pub const TONE_SAMPLES: usize = 14_400;

/// Samples of silence behind the marker and each tone: 80 ms.
pub const PAUSE_SAMPLES: usize = 3_840;

/// Samples of the chirp that marks the start of a probe.
pub const MARKER_SAMPLES: usize = 2_880;

/// Samples in front of the first probe tone.
pub const ALIGN_SAMPLES: usize = MARKER_SAMPLES + PAUSE_SAMPLES;

/// Samples from one probe tone to the next.
pub const PROBE_STEP: usize = TONE_SAMPLES + PAUSE_SAMPLES;

/// The marker is the audible band's chirp.
pub proof fn the_marker_is_the_audible_chirp()
    ensures
        MARKER_SAMPLES == crate::samples_in(audio().chirp_ms as int),
{
}

/// The frequencies that every probe plays.
pub open spec fn base_tones() -> Seq<i64> {
    seq![
        1_000_000i64,
        3_000_000,
        4_000_000,
        6_000_000,
        10_000_000,
        14_000_000,
        16_000_000,
        17_000_000,
        18_200_000,
        18_600_000,
        19_000_000,
        19_600_000,
        20_000_000,
    ]
}

/// The tones of a profile in a band.
pub open spec fn profile_tones(p: Profile, b: Band) -> Seq<i64> {
    Seq::new(power2::pow2(p.bits_per_symbol as nat), |i: int| band::tone(p, b, i) as i64)
}

/// The tones of the first `n` profiles in a band.
pub open spec fn tones_of(b: Band, n: nat) -> Seq<i64>
    decreases n,
{
    if n == 0 {
        Seq::empty()
    } else {
        tones_of(b, (n - 1) as nat) + profile_tones(profile::profile_of(n - 1).unwrap(), b)
    }
}

/// What a band uses: every profile's tones, and both ends of the chirp.
pub open spec fn tuned_tones(b: Band) -> Seq<i64> {
    tones_of(b, PROFILE_COUNT as nat) + seq![b.signature().0 as i64, b.signature().1 as i64]
}

pub open spec fn lowest_first() -> spec_fn(i64, i64) -> bool {
    |x: i64, y: i64| x <= y
}

/// Ascending order without what lies less than a hertz above the last one kept.
pub open spec fn thinned(s: Seq<i64>) -> Seq<i64>
    decreases s.len(),
{
    if s.len() == 0 {
        s
    } else {
        let before = thinned(s.drop_last());
        if before.len() > 0 && s.last() - before.last() < 1_000 {
            before
        } else {
            before.push(s.last())
        }
    }
}

/// The frequencies to play, in order.
pub open spec fn probe_tones(b: Band) -> Seq<i64> {
    thinned((base_tones() + tuned_tones(b)).sort_by(lowest_first()))
}

/// What to play, and which of it the band uses.
pub struct ProbePlan {
    pub freqs: Vec<i64>,
    pub tuned: Vec<i64>,
}

fn push_tones(out: &mut Vec<i64>, id: usize, p: &Profile, b: &Band)
    requires
        profile::profile_of(id as int) == Some(*p),
    ensures
        final(out)@ == old(out)@ + profile_tones(*p, *b),
{
    proof {
        power2::lemma2_to64();
    }
    let tones = tone_freqs(p, b);
    assert(tones@ =~= profile_tones(*p, *b));
    out.extend_from_slice(tones.as_slice());
}

/// The numbers in ascending order.
fn ascending(v: &Vec<i64>) -> (out: Vec<i64>)
    ensures
        out@ == v@.sort_by(lowest_first()),
{
    let mut out: Vec<i64> = Vec::new();
    let mut i: usize = 0;
    assert(v@.take(0) =~= Seq::<i64>::empty());
    assert(out@ =~= Seq::<i64>::empty());
    while i < v.len()
        invariant
            i <= v@.len(),
            out@.to_multiset() == v@.take(i as int).to_multiset(),
            forall|a: int, b: int| 0 <= a < b < out@.len() ==> #[trigger] out@[a] <= #[trigger] out@[b],
        decreases v@.len() - i,
    {
        let x: i64 = v[i];
        let ghost before = out@;
        let mut at: usize = 0;
        while at < out.len() && out[at] <= x
            invariant
                at <= out@.len(),
                out@ == before,
                forall|k: int| 0 <= k < at ==> #[trigger] out@[k] <= x,
            decreases out@.len() - at,
        {
            at = at + 1;
        }
        out.insert(at, x);
        proof {
            vstd::seq_lib::to_multiset_insert(before, at as int, x);
            assert(v@.take(i + 1) =~= v@.take(i as int).push(x));
            vstd::seq_lib::to_multiset_build(v@.take(i as int), x);
            assert forall|a: int, b: int| 0 <= a < b < out@.len() implies #[trigger] out@[a]
                <= #[trigger] out@[b] by {
                let a0 = if a < at {
                    a
                } else {
                    a - 1
                };
                let b0 = if b < at {
                    b
                } else {
                    b - 1
                };
                if a != at {
                    assert(out@[a] == before[a0]);
                }
                if b != at {
                    assert(out@[b] == before[b0]);
                }
                if a == at && at < before.len() {
                    assert(before[at as int] <= before[b0]);
                }
            }
        }
        i = i + 1;
    }
    proof {
        assert(v@.take(i as int) =~= v@);
        let leq = lowest_first();
        v@.lemma_sort_by_ensures(leq);
        assert(relations::sorted_by(out@, leq));
        vstd::seq_lib::lemma_sorted_unique(out@, v@.sort_by(leq), leq);
    }
    out
}

/// Plan a probe. What the band is tuned to is always part of it, so the answer
/// stays meaningful after a retune.
pub fn plan_probe(b: &Band) -> (plan: ProbePlan)
    ensures
        plan.freqs@ == probe_tones(*b),
        plan.tuned@ == tuned_tones(*b),
{
    let mut tuned: Vec<i64> = Vec::new();
    let mut id: usize = 0;
    assert(tuned@ =~= tones_of(*b, 0));
    while id < PROFILE_COUNT
        invariant
            id <= PROFILE_COUNT,
            tuned@ == tones_of(*b, id as nat),
        decreases PROFILE_COUNT - id,
    {
        if let Some(p) = profile::profile(id) {
            push_tones(&mut tuned, id, &p, b);
        }
        id = id + 1;
    }
    tuned.push(b.chirp_f0());
    tuned.push(b.chirp_f1());
    assert(tuned@ =~= tuned_tones(*b));
    let mut all: Vec<i64> = Vec::new();
    all.push(1_000_000);
    all.push(3_000_000);
    all.push(4_000_000);
    all.push(6_000_000);
    all.push(10_000_000);
    all.push(14_000_000);
    all.push(16_000_000);
    all.push(17_000_000);
    all.push(18_200_000);
    all.push(18_600_000);
    all.push(19_000_000);
    all.push(19_600_000);
    all.push(20_000_000);
    assert(all@ =~= base_tones());
    all.extend_from_slice(tuned.as_slice());
    assert(all@ =~= base_tones() + tuned_tones(*b));
    let sorted = ascending(&all);
    let mut freqs: Vec<i64> = Vec::new();
    let mut i: usize = 0;
    assert(sorted@.take(0) =~= Seq::<i64>::empty());
    assert(freqs@ =~= Seq::<i64>::empty());
    while i < sorted.len()
        invariant
            i <= sorted@.len(),
            freqs@ == thinned(sorted@.take(i as int)),
        decreases sorted@.len() - i,
    {
        assert(sorted@.take(i + 1).drop_last() =~= sorted@.take(i as int));
        assert(sorted@.take(i + 1).last() == sorted@[i as int]);
        let f: i64 = sorted[i];
        let near: bool = freqs.len() > 0 && (f as i128) - (freqs[freqs.len() - 1] as i128) < 1_000;
        if !near {
            freqs.push(f);
        }
        i = i + 1;
    }
    assert(sorted@.take(i as int) =~= sorted@);
    ProbePlan { freqs, tuned }
}

/// What to say of a probe whose recording does not even hold the marker.
pub fn probe_unrecorded(recorded: usize) -> (line: Option<String>)
    ensures
        match line {
            Some(l) => recorded < ALIGN_SAMPLES && l@ == "probe failed: nothing recorded"@,
            None => recorded >= ALIGN_SAMPLES,
        },
{
    if recorded < ALIGN_SAMPLES {
        Some("probe failed: nothing recorded".to_owned())
    } else {
        None
    }
}

/// Where probe tone `i` was recorded: from the first sample to the one behind the
/// last. Nothing where the recording ends before it; then there is nothing behind
/// it either. `anchor` is where the marker was found.
pub fn tone_window(anchor: usize, i: usize, recorded: usize) -> (w: Option<(usize, usize)>)
    ensures
        ({
            let s = anchor + ALIGN_SAMPLES + i * PROBE_STEP;
            w == (if s >= recorded {
                None
            } else {
                Some(
                    (
                        s as usize,
                        (if s + TONE_SAMPLES < recorded {
                            s + TONE_SAMPLES
                        } else {
                            recorded as int
                        }) as usize,
                    ),
                )
            })
        }),
{
    let s: u128 = anchor as u128 + ALIGN_SAMPLES as u128 + i as u128 * PROBE_STEP as u128;
    if s >= recorded as u128 {
        return None;
    }
    let first: usize = s as usize;
    let end: usize = if recorded - first > TONE_SAMPLES {
        first + TONE_SAMPLES
    } else {
        recorded
    };
    Some((first, end))
}

/// A decibel. Levels are doubles, and so are their differences; in units this small
/// each of them is a whole number.
pub const DECIBEL: i128 = 0x40_0000_0000_0000_0000_0000_0000;

/// More decibels, either way, than any recording has.
pub const LEVEL_LIMIT: i128 = 0x100_0000_0000_0000_0000_0000_0000_0000;

/// A level that a recording can have.
pub open spec fn measurable(level: i128) -> bool {
    -LEVEL_LIMIT <= level <= LEVEL_LIMIT
}

/// A level with one digit behind the point.
pub open spec fn level_text(level: int) -> Seq<char> {
    text::fixed_point(10 * level, DECIBEL as nat, 1)
}

/// A tone and how loud it came back.
#[derive(Clone, Copy, Debug, PartialEq, Eq, Structural)]
pub struct ToneLevel {
    pub freq: i64,
    pub level: i128,
}

/// The loudest of the levels.
pub open spec fn loudest(levels: Seq<ToneLevel>) -> Option<i128>
    decreases levels.len(),
{
    if levels.len() == 0 {
        None
    } else {
        match loudest(levels.drop_last()) {
            Some(l) if l >= levels.last().level => Some(l),
            _ => Some(levels.last().level),
        }
    }
}

/// A tone the band uses, to within a hertz.
pub open spec fn is_tuned(f: i64, tuned: Seq<i64>) -> bool {
    exists|i: int| 0 <= i < tuned.len() && packet::magnitude((#[trigger] tuned[i]) - f) < 1_000
}

/// A tone from one to four kilohertz, which any hardware carries.
pub open spec fn is_reference(f: i64) -> bool {
    999_000 <= f < 4_001_000
}

/// The loudest of the reference tones.
pub open spec fn reference_level(levels: Seq<ToneLevel>) -> Option<i128>
    decreases levels.len(),
{
    if levels.len() == 0 {
        None
    } else {
        let before = reference_level(levels.drop_last());
        let t = levels.last();
        if !is_reference(t.freq) {
            before
        } else {
            match before {
                Some(l) if l >= t.level => before,
                _ => Some(t.level),
            }
        }
    }
}

/// The weakest of the tones the band uses.
pub open spec fn tuned_level(levels: Seq<ToneLevel>, tuned: Seq<i64>) -> Option<i128>
    decreases levels.len(),
{
    if levels.len() == 0 {
        None
    } else {
        let before = tuned_level(levels.drop_last(), tuned);
        let t = levels.last();
        if !is_tuned(t.freq, tuned) {
            before
        } else {
            match before {
                Some(l) if l <= t.level => before,
                _ => Some(t.level),
            }
        }
    }
}

/// How far `level` is above `other`, as a double.
pub open spec fn difference(level: i128, other: i128) -> int {
    text::signed_double(level - other)
}

/// The columns of a bar: one for each whole decibel above 44 below the loudest.
pub open spec fn bar_columns(below: int) -> nat {
    let above = text::signed_double(44 * DECIBEL + below);
    if above < 0 {
        0
    } else if above > 44 * DECIBEL {
        44
    } else {
        (above / DECIBEL as int) as nat
    }
}

/// The line of one tone.
pub open spec fn tone_line(t: ToneLevel, top: i128, tuned: Seq<i64>) -> Seq<char> {
    text::right_aligned(text::fixed_point(t.freq as int, 1_000, 0), 8) + " Hz  "@
        + text::right_aligned(level_text(difference(t.level, top)), 6) + "  "@ + text::bar(
        bar_columns(difference(t.level, top)),
    ) + (if is_tuned(t.freq, tuned) {
        " <"@
    } else {
        ""@
    })
}

/// The first line of a probe's report.
pub open spec fn probe_head(score: i32, top: i128) -> Seq<char> {
    "(alignment score "@ + chirp::score_text(score)
        + "; bars are relative to the strongest tone, "@ + level_text(top as int)
        + " dB; '<' marks the tuned band)"@
}

/// What the levels say of the band.
pub open spec fn verdict_lines(
    levels: Seq<ToneLevel>,
    b: Band,
    tuned: Seq<i64>,
) -> Seq<Seq<char>> {
    match (reference_level(levels), tuned_level(levels, tuned)) {
        (Some(reference), Some(here)) => {
            let line = "VERDICT for "@ + b.name@ + " @ "@ + text::double_text(
                b.base_freq as int,
                1_000_000,
                2,
            ) + " kHz: weakest tone is "@ + text::fixed_point(
                difference(reference, here),
                DECIBEL as nat,
                0,
            ) + " dB below the audible reference."@;
            if difference(reference, here) > 30 * DECIBEL {
                seq![line, "         Too weak \u{2014} this hardware will not carry that tuning."@]
            } else {
                seq![line]
            }
        },
        _ => Seq::empty(),
    }
}

/// The report of a probe.
pub open spec fn probe_lines(
    levels: Seq<ToneLevel>,
    score: i32,
    b: Band,
    tuned: Seq<i64>,
) -> Seq<Seq<char>> {
    match loudest(levels) {
        None => seq!["probe failed: recording too short to align"@],
        Some(top) => seq![probe_head(score, top)] + Seq::new(
            levels.len(),
            |i: int| tone_line(levels[i], top, tuned),
        ) + seq![""@] + verdict_lines(levels, b, tuned) + seq![
            "NOTE: Windows quietens playback while a mic is open ('communications activity')."@,
            "      Sound Control Panel -> Communications -> 'Do nothing' disables it."@,
        ],
    }
}

fn tuned_at(f: i64, tuned: &[i64]) -> (yes: bool)
    ensures
        yes == is_tuned(f, tuned@),
{
    let mut i: usize = 0;
    while i < tuned.len()
        invariant
            i <= tuned@.len(),
            forall|k: int| 0 <= k < i ==> packet::magnitude((#[trigger] tuned@[k]) - f) >= 1_000,
        decreases tuned@.len() - i,
    {
        let d: i128 = tuned[i] as i128 - f as i128;
        if -1_000 < d && d < 1_000 {
            assert(packet::magnitude(tuned@[i as int] - f) < 1_000);
            return true;
        }
        i = i + 1;
    }
    false
}

/// Report what a probe found. Bars are relative to the loudest tone: absolute levels
/// depend on the volume knob, while the SHAPE of the response is what decides the
/// band.
pub fn probe_report(levels: &[ToneLevel], score: i32, b: &Band, tuned: &[i64]) -> (out: Vec<String>)
    requires
        forall|i: int| 0 <= i < levels@.len() ==> measurable((#[trigger] levels@[i]).level),
    ensures
        text::lines(out@) == probe_lines(levels@, score, *b, tuned@),
{
    let mut out = no_lines();
    let mut top: Option<i128> = None;
    let mut reference: Option<i128> = None;
    let mut here: Option<i128> = None;
    let mut i: usize = 0;
    assert(levels@.take(0) =~= Seq::<ToneLevel>::empty());
    while i < levels.len()
        invariant
            i <= levels@.len(),
            top == loudest(levels@.take(i as int)),
            reference == reference_level(levels@.take(i as int)),
            here == tuned_level(levels@.take(i as int), tuned@),
            forall|k: int| 0 <= k < levels@.len() ==> measurable((#[trigger] levels@[k]).level),
            top matches Some(l) ==> measurable(l),
            reference matches Some(l) ==> measurable(l),
            here matches Some(l) ==> measurable(l),
        decreases levels@.len() - i,
    {
        assert(levels@.take(i + 1).drop_last() =~= levels@.take(i as int));
        assert(levels@.take(i + 1).last() == levels@[i as int]);
        let t = levels[i];
        top = match top {
            Some(l) if l >= t.level => Some(l),
            _ => Some(t.level),
        };
        if 999_000 <= t.freq && t.freq < 4_001_000 {
            reference = match reference {
                Some(l) if l >= t.level => Some(l),
                _ => Some(t.level),
            };
        }
        if tuned_at(t.freq, tuned) {
            here = match here {
                Some(l) if l <= t.level => Some(l),
                _ => Some(t.level),
            };
        }
        i = i + 1;
    }
    assert(levels@.take(i as int) =~= levels@);
    let top: i128 = match top {
        Some(top) => top,
        None => {
            push_line(&mut out, "probe failed: recording too short to align".to_owned());
            assert(text::lines(out@) =~= probe_lines(levels@, score, *b, tuned@));
            return out;
        },
    };
    let mut head = "(alignment score ".to_owned();
    push_score(&mut head, score);
    head.append("; bars are relative to the strongest tone, ");
    push_fixed(&mut head, 10 * top, DECIBEL as u128, 1);
    head.append(" dB; '<' marks the tuned band)");
    push_line(&mut out, head);
    let ghost first = text::lines(out@);
    let ghost body = Seq::new(levels@.len(), |k: int| tone_line(levels@[k], top, tuned@));
    assert(first =~= seq![probe_head(score, top)]);
    let mut i: usize = 0;
    assert(first + body.take(0) =~= first);
    while i < levels.len()
        invariant
            i <= levels@.len(),
            body == Seq::new(levels@.len(), |k: int| tone_line(levels@[k], top, tuned@)),
            text::lines(out@) == first + body.take(i as int),
            forall|k: int| 0 <= k < levels@.len() ==> measurable((#[trigger] levels@[k]).level),
            measurable(top),
        decreases levels@.len() - i,
    {
        let line = tone_report(&levels[i], top, tuned);
        push_line(&mut out, line);
        assert(first + body.take(i + 1) =~= (first + body.take(i as int)).push(body[i as int]));
        i = i + 1;
    }
    assert(body.take(i as int) =~= body);
    push_line(&mut out, "".to_owned());
    let ghost middle = text::lines(out@);
    match (reference, here) {
        (Some(r), Some(h)) => {
            let drop: i128 = to_signed_double(r - h);
            let mut line = "VERDICT for ".to_owned();
            line.append(b.name);
            line.append(" @ ");
            push_double(&mut line, b.base_freq as i128, 1_000_000, 2);
            line.append(" kHz: weakest tone is ");
            push_fixed(&mut line, drop, DECIBEL as u128, 0);
            line.append(" dB below the audible reference.");
            push_line(&mut out, line);
            if drop > 30 * DECIBEL {
                push_line(
                    &mut out,
                    "         Too weak \u{2014} this hardware will not carry that tuning.".to_owned(),
                );
            }
        },
        _ => {},
    }
    assert(text::lines(out@) =~= middle + verdict_lines(levels@, *b, tuned@));
    push_line(
        &mut out,
        "NOTE: Windows quietens playback while a mic is open ('communications activity').".to_owned(),
    );
    push_line(
        &mut out,
        "      Sound Control Panel -> Communications -> 'Do nothing' disables it.".to_owned(),
    );
    assert(text::lines(out@) =~= probe_lines(levels@, score, *b, tuned@));
    out
}

fn tone_report(t: &ToneLevel, top: i128, tuned: &[i64]) -> (line: String)
    requires
        measurable(t.level),
        measurable(top),
    ensures
        line@ == tone_line(*t, top, tuned@),
{
    let below: i128 = to_signed_double(t.level - top);
    let above: i128 = to_signed_double(44 * DECIBEL + below);
    let columns: usize = if above < 0 {
        0
    } else if above > 44 * DECIBEL {
        44
    } else {
        (above / DECIBEL) as usize
    };
    let mut freq = String::new();
    push_fixed(&mut freq, t.freq as i128, 1_000, 0);
    assert(freq@ =~= text::fixed_point(t.freq as int, 1_000, 0));
    let mut level = String::new();
    push_fixed(&mut level, 10 * below, DECIBEL as u128, 1);
    assert(level@ =~= level_text(below as int));
    let mut line = String::new();
    push_right_aligned(&mut line, freq.as_str(), 8);
    assert(line@ =~= text::right_aligned(freq@, 8));
    line.append(" Hz  ");
    push_right_aligned(&mut line, level.as_str(), 6);
    line.append("  ");
    push_bar(&mut line, columns);
    line.append(
        if tuned_at(t.freq, tuned) {
            " <"
        } else {
            ""
        },
    );
    line
}

// --------------------------------------------------------------------------- //
// Loopback: speaker -> air -> mic -> decoder on one machine
// --------------------------------------------------------------------------- //
/// The header of the loopback frame: to everyone, and no ack.
pub open spec fn loopback_header() -> FragHeader {
    FragHeader {
        kind: T_TEXT,
        ack_req: false,
        src: BROADCAST,
        dst: BROADCAST,
        msg_id: 1,
        frag_idx: 0,
        frag_total: 1,
    }
}

/// The frame a loopback plays.
pub fn loopback_frame(text: &str) -> (bytes: Vec<u8>)
    ensures
        bytes@ == loopback_header().bytes() + vstd::utf8::encode_utf8(text@),
{
    let hdr = FragHeader {
        kind: T_TEXT,
        ack_req: false,
        src: BROADCAST,
        dst: BROADCAST,
        msg_id: 1,
        frag_idx: 0,
        frag_total: 1,
    };
    hdr.encode(text.as_bytes())
}

/// The profile to loop back in.
pub fn loopback_profile(id: usize) -> (r: Result<Profile, String>)
    ensures
        match profile::profile_of(id as int) {
            Some(p) => r == Ok::<Profile, String>(p),
            None => r matches Err(e) && e@ == "unknown profile"@,
        },
{
    match profile::profile(id) {
        Some(p) => Ok(p),
        None => Err("unknown profile".to_owned()),
    }
}

/// What to say of a loopback whose recording is too short for a chirp.
pub fn loopback_unrecorded(recorded: usize, b: &Band) -> (line: Option<String>)
    ensures
        match line {
            Some(l) => recorded < crate::samples_in(b.chirp_ms as int) && l@
                == "loopback: recording too short"@,
            None => recorded >= crate::samples_in(b.chirp_ms as int),
        },
{
    if recorded < b.chirp_samples() {
        Some("loopback: recording too short".to_owned())
    } else {
        None
    }
}

/// The text of a decoded loopback frame.
pub open spec fn loopback_text(payload: Seq<u8>) -> Seq<char> {
    match framing::parsed(payload) {
        Some(framing::FrameView::Data { payload, .. }) => text::lossy(payload),
        _ => "<unparseable frame>"@,
    }
}

/// The text of a decoded loopback frame, read back through the real framing layer
/// rather than by slicing at a fixed offset: if the two ever disagree, this should
/// say so.
pub fn read_loopback(payload: &[u8]) -> (got: String)
    ensures
        got@ == loopback_text(payload@),
{
    match parse(payload) {
        Some(Frame::Data { payload, .. }) => text::from_utf8_lossy(payload.as_slice()),
        _ => "<unparseable frame>".to_owned(),
    }
}

/// What is read of a loopback frame is the text that was played.
pub proof fn loopback_reads_what_it_played(text: Seq<char>)
    ensures
        loopback_text(loopback_header().bytes() + vstd::utf8::encode_utf8(text)) == text,
{
    framing::data_frames_round_trip(loopback_header(), vstd::utf8::encode_utf8(text));
    vstd::utf8::encode_utf8_valid_utf8(text);
    vstd::utf8::encode_utf8_decode_utf8(text);
}

/// What a loopback measured, before decoding.
#[derive(Clone, Copy, Debug, PartialEq, Eq, Structural)]
pub struct Heard {
    /// Level of the recording.
    pub rms: i128,
    /// The best preamble score, and the median one.
    pub score: i32,
    pub noise: i32,
    pub threshold: i32,
}

/// The lines that say what was measured.
pub open spec fn heard_lines(h: Heard, name: Seq<char>) -> Seq<Seq<char>> {
    seq![
        "recorded rms="@ + level_text(h.rms as int) + " dBFS ("@ + name
            + " profile)"@,
        "best preamble score="@ + chirp::score_digits(h.score, 3) + " (need >= "@
            + chirp::score_text(h.threshold) + "), noise median="@ + chirp::score_digits(
            h.noise,
            3,
        ),
    ]
}

/// The chirp was not heard.
pub open spec fn unheard(h: Heard) -> bool {
    chirp::above(h.threshold, h.score)
}

/// The lines of a loopback whose chirp was not heard.
pub open spec fn unheard_lines() -> Seq<Seq<char>> {
    seq![
        "FAIL: preamble not detected \u{2014} the mic never heard the chirp."@,
        "      Raise the volume, or run `probe` to check the band."@,
    ]
}

/// Report what was measured, and whether there is a preamble to decode from.
pub fn loopback_head(h: &Heard, p: &Profile) -> (r: (bool, Vec<String>))
    requires
        measurable(h.rms),
    ensures
        r.0 == !unheard(*h),
        text::lines(r.1@) == (if unheard(*h) {
            heard_lines(*h, p.name@) + unheard_lines()
        } else {
            heard_lines(*h, p.name@)
        }),
{
    let mut out = no_lines();
    let mut level = "recorded rms=".to_owned();
    push_fixed(&mut level, 10 * h.rms, DECIBEL as u128, 1);
    level.append(" dBFS (");
    level.append(p.name);
    level.append(" profile)");
    push_line(&mut out, level);
    let mut best = "best preamble score=".to_owned();
    push_score_digits(&mut best, h.score, 3);
    best.append(" (need >= ");
    push_score(&mut best, h.threshold);
    best.append("), noise median=");
    push_score_digits(&mut best, h.noise, 3);
    push_line(&mut out, best);
    assert(text::lines(out@) =~= heard_lines(*h, p.name@));
    if score_above(h.threshold, h.score) {
        push_line(
            &mut out,
            "FAIL: preamble not detected \u{2014} the mic never heard the chirp.".to_owned(),
        );
        push_line(
            &mut out,
            "      Raise the volume, or run `probe` to check the band.".to_owned(),
        );
        assert(text::lines(out@) =~= heard_lines(*h, p.name@) + unheard_lines());
        (false, out)
    } else {
        (true, out)
    }
}

/// The last lines of a loopback: what was decoded, in quotes, or why nothing was.
pub open spec fn decoded_lines(r: packet::DecodeView, quoted: Seq<char>) -> Seq<Seq<char>> {
    if r.ok {
        seq![
            "PASS: decoded "@ + quoted + " (conf="@ + packet::confidence_text(
                r.confidence,
            ) + ")"@,
        ]
    } else {
        seq![
            "FAIL at decode: "@ + r.reason,
            "      Preamble was heard, so timing/SNR is marginal \u{2014} try a slower profile or move the devices closer."@,
        ]
    }
}

/// The last lines of a loopback, the text already quoted.
pub fn loopback_tail(r: &DecodeResult, quoted: &str) -> (out: Vec<String>)
    ensures
        text::lines(out@) == decoded_lines(r@, quoted@),
{
    let mut out = no_lines();
    if r.ok {
        let mut line = "PASS: decoded ".to_owned();
        line.append(quoted);
        line.append(" (conf=");
        push_confidence(&mut line, r.confidence);
        line.append(")");
        push_line(&mut out, line);
    } else {
        let mut line = "FAIL at decode: ".to_owned();
        line.append(r.reason.as_str());
        push_line(&mut out, line);
        push_line(
            &mut out,
            "      Preamble was heard, so timing/SNR is marginal \u{2014} try a slower profile or move the devices closer.".to_owned(),
        );
    }
    assert(text::lines(out@) =~= decoded_lines(r@, quoted@));
    out
}

/// The last lines of a loopback.
pub fn loopback_verdict(r: &DecodeResult) -> (out: Vec<String>)
    ensures
        text::lines(out@) == decoded_lines(r@, text::debug_text(loopback_text(r@.payload))),
{
    let got = read_loopback(r.payload.as_slice());
    let quoted = text::debug_str(got.as_str());
    loopback_tail(r, quoted.as_str())
}

// --------------------------------------------------------------------------- //
// What the diagnostics stand for
// --------------------------------------------------------------------------- //
/// The self test passes exactly where what was sent came back: the nine letters and every
/// byte behind them.
pub proof fn the_selftest_wants_its_payload_back(r: packet::DecodeView, i: int)
    ensures
        selftest_bytes().len() == 41,
        0 <= i < 32 ==> selftest_bytes()[9 + i] == i,
        selftest_passed(r) ==> r.ok && r.payload.len() == 41,
        0 <= i < 32 && selftest_passed(r) ==> r.payload[9 + i] == i,
        r.ok && r.payload =~= selftest_bytes() ==> selftest_passed(r),
        !r.ok ==> !selftest_passed(r),
{
}

/// No entry is below an earlier one.
spec fn rises(s: Seq<i64>) -> bool {
    forall|i: int, j: int| 0 <= i < j < s.len() ==> #[trigger] s[i] <= #[trigger] s[j]
}

proof fn lemma_rises(s: Seq<i64>)
    requires
        rises(s),
        s.len() > 0,
    ensures
        rises(s.drop_last()),
        s.len() > 1 ==> s.drop_last().last() <= s.last(),
{
    let front = s.drop_last();
    assert forall|i: int, j: int| 0 <= i < j < front.len() implies #[trigger] front[i]
        <= #[trigger] front[j] by {
        assert(front[i] == s[i] && front[j] == s[j]);
    }
    if s.len() > 1 {
        assert(s[s.len() - 2] <= s[s.len() - 1]);
    }
}

/// What is kept is in the list.
proof fn lemma_thinned_is_part(s: Seq<i64>, i: int)
    requires
        0 <= i < thinned(s).len(),
    ensures
        s.contains(thinned(s)[i]),
    decreases s.len(),
{
    let front = s.drop_last();
    let before = thinned(front);
    if i < before.len() {
        lemma_thinned_is_part(front, i);
        let j = choose|j: int| 0 <= j < front.len() && front[j] == before[i];
        assert(s[j] == before[i]);
    } else {
        assert(s[s.len() - 1] == s.last());
    }
}

/// The last one kept is no higher than the last of the list.
proof fn lemma_thinned_last(s: Seq<i64>)
    requires
        rises(s),
        s.len() > 0,
    ensures
        thinned(s).len() > 0,
        0 <= s.last() - thinned(s).last() < 1_000,
    decreases s.len(),
{
    let front = s.drop_last();
    if front.len() > 0 {
        lemma_rises(s);
        lemma_thinned_last(front);
    }
    let before = thinned(front);
    if before.len() > 0 && s.last() - before.last() < 1_000 {
        assert(front.len() > 0);
        assert(thinned(s) == before);
    } else {
        assert(thinned(s) == before.push(s.last()));
    }
}

/// What is kept lies a hertz or more apart.
proof fn lemma_thinned_gaps(s: Seq<i64>, i: int, j: int)
    requires
        rises(s),
        0 <= i < j < thinned(s).len(),
    ensures
        thinned(s)[j] - thinned(s)[i] >= 1_000,
    decreases s.len(),
{
    let front = s.drop_last();
    let before = thinned(front);
    lemma_rises(s);
    if j < before.len() {
        lemma_thinned_gaps(front, i, j);
    } else if i < before.len() - 1 {
        lemma_thinned_gaps(front, i, before.len() - 1);
    }
}

/// Nothing of the list lies a hertz or more above the next one kept below it.
proof fn lemma_thinned_covers(s: Seq<i64>, i: int) -> (k: int)
    requires
        rises(s),
        0 <= i < s.len(),
    ensures
        0 <= k < thinned(s).len(),
        0 <= s[i] - thinned(s)[k] < 1_000,
    decreases s.len(),
{
    if i < s.len() - 1 {
        lemma_rises(s);
        lemma_thinned_covers(s.drop_last(), i)
    } else {
        lemma_thinned_last(s);
        thinned(s).len() - 1
    }
}

/// A probe plays its tones in ascending order, a hertz or more apart; it plays nothing
/// that is neither one of the fixed tones nor one the band uses; and whatever of these
/// there is, it plays something less than a hertz below it.
pub proof fn probes_play_every_tone(b: Band, f: i64, i: int, j: int)
    ensures
        ({
            let all = base_tones() + tuned_tones(b);
            let played = probe_tones(b);
            &&& 0 <= i < j < played.len() ==> played[j] - played[i] >= 1_000
            &&& 0 <= i < played.len() ==> all.contains(played[i])
            &&& all.contains(f) ==> exists|k: int|
                0 <= k < played.len() && 0 <= f - (#[trigger] played[k]) < 1_000
        }),
{
    broadcast use vstd::seq_lib::group_to_multiset_ensures;

    let all = base_tones() + tuned_tones(b);
    let leq = lowest_first();
    all.lemma_sort_by_ensures(leq);
    let s = all.sort_by(leq);
    assert(rises(s)) by {
        assert forall|x: int, y: int| 0 <= x < y < s.len() implies #[trigger] s[x]
            <= #[trigger] s[y] by {
            assert(leq(s[x], s[y]));
        }
    }
    let played = probe_tones(b);
    if 0 <= i < j < played.len() {
        lemma_thinned_gaps(s, i, j);
    }
    if 0 <= i < played.len() {
        lemma_thinned_is_part(s, i);
        assert(s.contains(played[i]));
        assert(s.to_multiset().count(played[i]) > 0);
        assert(all.to_multiset().count(played[i]) > 0);
    }
    if all.contains(f) {
        assert(all.to_multiset().count(f) > 0);
        assert(s.to_multiset().count(f) > 0);
        let x = choose|x: int| 0 <= x < s.len() && s[x] == f;
        let k = lemma_thinned_covers(s, x);
        assert(0 <= f - played[k] < 1_000);
    }
}

/// A band uses every tone of every profile, and both ends of its chirp.
pub proof fn bands_use_their_tones_and_chirp(b: Band, id: int, i: int)
    requires
        profile::profile_of(id) is Some,
        0 <= i < power2::pow2(profile::profile_of(id).unwrap().bits_per_symbol as nat),
    ensures
        tuned_tones(b).contains(band::tone(profile::profile_of(id).unwrap(), b, i) as i64),
        tuned_tones(b).contains((b.base_freq - b.lead) as i64),
        tuned_tones(b).contains((b.base_freq + b.span) as i64),
        tuned_tones(b).len() == 14,
{
    power2::lemma2_to64();
    reveal_with_fuel(tones_of, 4);
    let all = tuned_tones(b);
    let p = profile::profile_of(id).unwrap();
    assert(profile_tones(profile::fast(), b).len() == 4);
    assert(profile_tones(profile::normal(), b).len() == 4);
    assert(profile_tones(profile::robust(), b).len() == 4);
    assert(tones_of(b, 3).len() == 12);
    assert(all[12] == (b.base_freq - b.lead) as i64);
    assert(all[13] == (b.base_freq + b.span) as i64);
    assert(profile_tones(p, b)[i] == band::tone(p, b, i) as i64);
    assert(all[4 * id + i] == band::tone(p, b, i) as i64) by {
        if id == 0 {
            assert(all[i] == profile_tones(profile::fast(), b)[i]);
        } else if id == 1 {
            assert(all[4 + i] == profile_tones(profile::normal(), b)[i]);
        } else {
            assert(all[8 + i] == profile_tones(profile::robust(), b)[i]);
        }
    }
}

/// The loudest level is one of the levels, and none is louder; the reference is the
/// loudest of the tones from one to four kilohertz, and what the band has to offer is
/// the weakest of the tones it uses.
pub proof fn levels_are_the_extremes(levels: Seq<ToneLevel>, tuned: Seq<i64>, i: int)
    ensures
        levels.len() == 0 <==> loudest(levels) is None,
        loudest(levels) matches Some(l) ==> exists|k: int|
            0 <= k < levels.len() && (#[trigger] levels[k]).level == l,
        0 <= i < levels.len() ==> levels[i].level <= loudest(levels).unwrap(),
        reference_level(levels) matches Some(l) ==> exists|k: int|
            0 <= k < levels.len() && (#[trigger] levels[k]).level == l && 999_000 <= levels[k].freq
                < 4_001_000,
        0 <= i < levels.len() && 999_000 <= levels[i].freq < 4_001_000 ==> reference_level(
            levels,
        ) is Some && levels[i].level <= reference_level(levels).unwrap(),
        tuned_level(levels, tuned) matches Some(l) ==> exists|k: int|
            0 <= k < levels.len() && (#[trigger] levels[k]).level == l && is_tuned(
                levels[k].freq,
                tuned,
            ),
        0 <= i < levels.len() && is_tuned(levels[i].freq, tuned) ==> tuned_level(
            levels,
            tuned,
        ) is Some && levels[i].level >= tuned_level(levels, tuned).unwrap(),
    decreases levels.len(),
{
    if levels.len() > 0 {
        let front = levels.drop_last();
        let n = levels.len() - 1;
        levels_are_the_extremes(front, tuned, i);
        assert(levels[n] == levels.last());
        if let Some(l) = loudest(front) {
            let k = choose|k: int| 0 <= k < front.len() && (#[trigger] front[k]).level == l;
            assert(levels[k] == front[k]);
        }
        if let Some(l) = reference_level(front) {
            let k = choose|k: int|
                0 <= k < front.len() && (#[trigger] front[k]).level == l && 999_000
                    <= front[k].freq < 4_001_000;
            assert(levels[k] == front[k]);
        }
        if let Some(l) = tuned_level(front, tuned) {
            let k = choose|k: int|
                0 <= k < front.len() && (#[trigger] front[k]).level == l && is_tuned(
                    front[k].freq,
                    tuned,
                );
            assert(levels[k] == front[k]);
        }
        if 0 <= i < n {
            assert(levels[i] == front[i]);
        }
    }
}

/// The report of a probe has a line for each tone between its head and an empty line; it
/// has a verdict exactly where there is a reference and a tone that the band uses, and
/// calls the band too weak exactly where that is more than 30 dB below.
pub proof fn probes_report_every_tone(
    levels: Seq<ToneLevel>,
    score: i32,
    b: Band,
    tuned: Seq<i64>,
    i: int,
)
    requires
        levels.len() > 0,
    ensures
        ({
            let lines = probe_lines(levels, score, b, tuned);
            let (r, h) = (reference_level(levels), tuned_level(levels, tuned));
            let more = verdict_lines(levels, b, tuned).len();
            &&& lines.len() == levels.len() + 4 + more
            &&& 0 <= i < levels.len() ==> lines[1 + i] == tone_line(
                levels[i],
                loudest(levels).unwrap(),
                tuned,
            )
            &&& more == 0 <==> r is None || h is None
            &&& more == 2 <==> r is Some && h is Some && difference(r.unwrap(), h.unwrap()) > 30
                * DECIBEL
            &&& more <= 2
        }),
{
    levels_are_the_extremes(levels, tuned, 0);
}

/// A bar is as long as whole decibels lie above 44 below the loudest tone, from nothing to
/// 44 columns.
pub proof fn bars_count_decibels(below: int)
    ensures
        ({
            let above = text::signed_double(44 * DECIBEL + below);
            let n = bar_columns(below);
            &&& n <= 44
            &&& above <= 0 ==> n == 0
            &&& 0 <= above <= 44 * DECIBEL ==> n * DECIBEL <= above < (n + 1) * DECIBEL
            &&& above >= 44 * DECIBEL ==> n == 44
        }),
{
}

/// The end of a loopback says in one line that it passed, or in two that it failed and
/// why.
pub proof fn loopbacks_end_with_a_verdict(r: packet::DecodeView, quoted: Seq<char>)
    ensures
        decoded_lines(r, quoted).len() == (if r.ok {
            1nat
        } else {
            2
        }),
        !r.ok ==> decoded_lines(r, quoted)[0] == "FAIL at decode: "@ + r.reason,
{
}

/// A loopback frame is for everyone and asks for nothing: whoever hears it answers
/// nothing, and is told its text at once.
pub proof fn loopbacks_are_heard_by_everyone(
    text: Seq<char>,
    me: framing::DeviceId,
    s: reassembly::ReassemblerView,
    now: u64,
)
    requires
        reassembly::unknown(s, reassembly::key_of(loopback_header()), now),
    ensures
        ({
            let frame = loopback_header().bytes() + vstd::utf8::encode_utf8(text);
            let d = dispatch::dispatched(frame, me);
            &&& d.reply is None
            &&& d.hand_over is None
            &&& d.fragment matches Some((hdr, frag)) && reassembly::arrival_events(
                hdr,
                reassembly::arrival(s, hdr, frag, now).verdict,
            ).last() == event::EventView::Text(text)
        }),
{
    let blob = vstd::utf8::encode_utf8(text);
    let hdr = loopback_header();
    framing::data_frames_round_trip(hdr, blob);
    dispatch::fragments_for_us_are_kept(hdr.bytes() + blob, me, hdr, blob, 0);
    reassembly::a_first_fragment_starts_its_message(s, hdr, blob, now);
    reassembly::a_complete_message_is_told_whole(hdr, hdr.kind, blob);
    event::texts_are_told_whole(text);
}

/// The chirp counts as heard exactly where its score reaches the threshold; where one of
/// them is not a number, it does too.
pub proof fn chirps_are_heard_from_the_threshold_on(h: Heard)
    ensures
        !chirp::is_nan(h.score) && !chirp::is_nan(h.threshold) ==> (unheard(h)
            <==> !chirp::at_least(h.score, h.threshold)),
        chirp::is_nan(h.score) || chirp::is_nan(h.threshold) ==> !unheard(h),
{
}

/// A tone belongs to the band where one of the band's tones is less than a hertz away.
pub proof fn tones_belong_to_the_band_within_a_hertz(f: i64, tuned: Seq<i64>, i: int)
    ensures
        0 <= i < tuned.len() && -1_000 < tuned[i] - f < 1_000 ==> is_tuned(f, tuned),
        (forall|k: int|
            0 <= k < tuned.len() ==> (#[trigger] tuned[k]) - f >= 1_000 || tuned[k] - f <= -1_000)
            ==> !is_tuned(f, tuned),
{
    if 0 <= i < tuned.len() && -1_000 < tuned[i] - f < 1_000 {
        assert(packet::magnitude(tuned[i] - f) < 1_000);
    }
}

/// The line of the self test ends in the verdict, and why; the line of a tone ends in a
/// mark exactly where the band uses it, and shows it below the loudest.
pub proof fn lines_tell_what_was_found(
    name: Seq<char>,
    score: i32,
    r: packet::DecodeView,
    t: ToneLevel,
    top: i128,
    tuned: Seq<i64>,
)
    ensures
        selftest_result(name, score, r) == "  "@ + text::left_aligned(name, 8) + " score="@
            + chirp::score_digits(score, 2) + " "@ + (if r.ok && r.payload == selftest_bytes() {
            "PASS"@
        } else {
            "FAIL "@ + r.reason
        }),
        tone_line(t, top, tuned) == text::right_aligned(
            text::fixed_point(t.freq as int, 1_000, 0),
            8,
        ) + " Hz  "@ + text::right_aligned(
            text::fixed_point(10 * text::signed_double(t.level - top), DECIBEL as nat, 1),
            6,
        ) + "  "@ + text::bar(bar_columns(text::signed_double(t.level - top))) + (if is_tuned(
            t.freq,
            tuned,
        ) {
            " <"@
        } else {
            ""@
        }),
{
}

/// What is said of a probe and of what was heard.
pub proof fn heads_tell_what_was_measured(
    score: i32,
    top: i128,
    h: Heard,
    name: Seq<char>,
    levels: Seq<ToneLevel>,
    b: Band,
    tuned: Seq<i64>,
)
    ensures
        probe_head(score, top) == "(alignment score "@ + chirp::score_digits(score, 2)
            + "; bars are relative to the strongest tone, "@ + text::fixed_point(
            10 * top,
            DECIBEL as nat,
            1,
        ) + " dB; '<' marks the tuned band)"@,
        heard_lines(h, name).len() == 2,
        heard_lines(h, name)[0] == "recorded rms="@ + text::fixed_point(
            10 * h.rms,
            DECIBEL as nat,
            1,
        ) + " dBFS ("@ + name + " profile)"@,
        heard_lines(h, name)[1] == "best preamble score="@ + chirp::score_digits(h.score, 3)
            + " (need >= "@ + chirp::score_digits(h.threshold, 2) + "), noise median="@
            + chirp::score_digits(h.noise, 3),
        unheard_lines().len() == 2,
        reference_level(levels) is Some && tuned_level(levels, tuned) is Some ==> verdict_lines(
            levels,
            b,
            tuned,
        )[0] == "VERDICT for "@ + b.name@ + " @ "@ + text::double_text(
            b.base_freq as int,
            1_000_000,
            2,
        ) + " kHz: weakest tone is "@ + text::fixed_point(
            text::signed_double(
                reference_level(levels).unwrap() - tuned_level(levels, tuned).unwrap(),
            ),
            DECIBEL as nat,
            0,
        ) + " dB below the audible reference."@,
{
}

/// The fixed tones of a probe rise from one to twenty kilohertz, with references among
/// them and the tones of the fastest profile on the default band.
pub proof fn fixed_tones_span_what_hardware_carries(i: int, j: int)
    ensures
        base_tones().len() == 13,
        0 <= i < j < 13 ==> base_tones()[i] < base_tones()[j],
        base_tones()[0] == 1_000_000,
        base_tones()[12] == 20_000_000,
        0 <= i < 3 ==> is_reference(base_tones()[i]),
        8 <= i <= 10 ==> base_tones()[i] == band::tone(profile::fast(), band::ultra(), i - 8),
{
    let s = base_tones();
    assert(s[0] < s[1] && s[1] < s[2] && s[2] < s[3] && s[3] < s[4] && s[4] < s[5] && s[5] < s[6]
        && s[6] < s[7] && s[7] < s[8] && s[8] < s[9] && s[9] < s[10] && s[10] < s[11] && s[11]
        < s[12]);
}

/// A frame that carries no fragment has no text.
pub proof fn only_fragments_have_a_text(payload: Seq<u8>)
    ensures
        framing::parsed(payload) matches Some(framing::FrameView::Data { payload: p, .. })
            ==> loopback_text(payload) == text::lossy(p),
        !(framing::parsed(payload) matches Some(framing::FrameView::Data { .. }))
            ==> loopback_text(payload) == "<unparseable frame>"@,
{
}

} // verus!

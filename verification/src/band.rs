//! Bands -- WHERE in the spectrum a link lives.
//!
//! A band fixes the lowest data tone and the chirp preamble that finds and
//! time-aligns packets. Profiles say how to modulate and are band-agnostic, so
//! "switch to the audible band" and "change speed" stay independent knobs, and
//! either band can be retuned to any centre frequency.
//!
//! There is no global registry: a [`BandSet`] is owned by whoever needs it. That
//! keeps two links in one process independent, which is what a UI driving several
//! sessions needs.
//!
//! Frequencies are whole numbers of thousandths of a hertz.
use crate::ms_samples;
use crate::profile;
use crate::profile::{max_tone_spread, Profile};
use crate::text;
use crate::text::{
    no_lines, push_decimal, push_double, push_fixed, push_left_aligned, push_line,
};
use vstd::arithmetic::power2;
use vstd::prelude::*;

verus! {

/// Below this, most listeners can hear the tones.
pub const AUDIBLE_LIMIT: i64 = 17_000_000;

/// Keep the chirp clear of DC and room rumble.
pub const MIN_BAND_FREQ: i64 = 300_000;

/// Leave headroom under Nyquist: 45% of the sample rate.
pub const MAX_BAND_FREQ: i64 = 21_600_000;

#[derive(Clone, Copy, Debug, PartialEq, Eq)]
pub struct Band {
    pub name: &'static str,
    /// Lowest data tone.
    pub base_freq: i32,
    /// How far below `base_freq` the chirp starts.
    pub lead: i32,
    /// How far above `base_freq` the chirp ends.
    pub span: i32,
    /// Length of the chirp in thousandths of a millisecond.
    pub chirp_ms: u32,
}

/// Near-ultrasonic: inaudible to most people, but consumer speakers and mics
/// fall off a cliff above ~19.5 kHz. The chirp deliberately stops below that --
/// a sweep whose top half the hardware cannot reproduce only correlates on the
/// part that survives, which throws away detection margin.
#[verifier::allow_in_spec]
pub fn ultra() -> (b: Band)
    returns
        (Band {
            name: "ULTRA",
            base_freq: 18_200_000,
            lead: 400_000,
            span: 1_400_000,
            chirp_ms: 60_000,
        }),
{
    Band { name: "ULTRA", base_freq: 18_200_000, lead: 400_000, span: 1_400_000, chirp_ms: 60_000 }
}

/// Audible fallback: survives any speaker/mic pair, including Bluetooth.
#[verifier::allow_in_spec]
pub fn audio() -> (b: Band)
    returns
        (Band {
            name: "AUDIO",
            base_freq: 3_000_000,
            lead: 200_000,
            span: 2_400_000,
            chirp_ms: 60_000,
        }),
{
    Band { name: "AUDIO", base_freq: 3_000_000, lead: 200_000, span: 2_400_000, chirp_ms: 60_000 }
}

pub const DEFAULT_BAND: &'static str = "ULTRA";

impl Band {
    /// The band with its lowest tone moved to `hz`.
    pub open spec fn retuned(self, hz: i32) -> Band {
        Band { base_freq: hz, ..self }
    }

    /// Where the chirp starts, where it ends, and how long it takes.
    pub open spec fn signature(self) -> (int, int, int) {
        (self.base_freq - self.lead, self.base_freq + self.span, self.chirp_ms as int)
    }

    pub fn chirp_f0(&self) -> (hz: i64)
        ensures
            hz == self.base_freq - self.lead,
    {
        self.base_freq as i64 - self.lead as i64
    }

    pub fn chirp_f1(&self) -> (hz: i64)
        ensures
            hz == self.base_freq + self.span,
    {
        self.base_freq as i64 + self.span as i64
    }

    pub fn chirp_samples(&self) -> (n: usize)
        ensures
            n == crate::samples_in(self.chirp_ms as int),
            n <= 0xFFFF_FFFF,
    {
        ms_samples(self.chirp_ms)
    }

    pub fn audible(&self) -> (yes: bool)
        ensures
            yes == (self.base_freq < AUDIBLE_LIMIT),
    {
        (self.base_freq as i64) < AUDIBLE_LIMIT
    }

    /// A signature that distinguishes chirps. Two bands retuned onto the same
    /// spot share one matched filter instead of double-firing on every packet.
    pub fn chirp_signature(&self) -> (sig: (i64, i64, i64))
        ensures
            (sig.0 as int, sig.1 as int, sig.2 as int) == self.signature(),
    {
        (self.chirp_f0(), self.chirp_f1(), self.chirp_ms as i64)
    }
}

// --------------------------------------------------------------------------- //
// Which frequencies are usable
// --------------------------------------------------------------------------- //
/// Why `hz` cannot be a base frequency, if it cannot.
///
/// It is judged by the default band: its chirp has to start above the floor, and
/// neither its chirp nor any profile's tones may pass the ceiling. That leaves
/// 0.7 to 20.2 kHz.
pub open spec fn freq_refusal(hz: int) -> Option<Seq<char>> {
    if hz <= 0 {
        Some("frequency must be a positive number"@)
    } else if hz - 400_000 < MIN_BAND_FREQ {
        Some(
            "too low: the chirp would start at "@ + text::fixed_point(hz - 400_000, 1000, 0)
                + " Hz, below the "@ + text::fixed_point(MIN_BAND_FREQ as int, 1000, 0)
                + " Hz floor"@,
        )
    } else if hz + 1_400_000 > MAX_BAND_FREQ {
        Some(
            "too high: tones/chirp would reach "@ + text::fixed_point(hz + 1_400_000, 1000, 0)
                + " Hz, above the "@ + text::fixed_point(MAX_BAND_FREQ as int, 1000, 0)
                + " Hz ceiling (Nyquist is "@ + text::decimal(24_000) + " Hz)"@,
        )
    } else {
        None
    }
}

/// `Ok(())` if `hz` is a usable base frequency, else why it is not.
pub fn check_band_freq(hz: i64) -> (r: Result<(), String>)
    ensures
        match (r, freq_refusal(hz as int)) {
            (Ok(_), None) => true,
            (Err(e), Some(why)) => e@ == why,
            _ => false,
        },
        r is Ok <==> 700_000 <= hz <= 20_200_000,
{
    if hz <= 0 {
        return Err("frequency must be a positive number".to_owned());
    }
    let u = ultra();
    let f0: i128 = hz as i128 - u.lead as i128;
    if f0 < MIN_BAND_FREQ as i128 {
        let mut why = "too low: the chirp would start at ".to_owned();
        push_fixed(&mut why, f0, 1000, 0);
        why.append(" Hz, below the ");
        push_fixed(&mut why, MIN_BAND_FREQ as i128, 1000, 0);
        why.append(" Hz floor");
        return Err(why);
    }
    let spread: u64 = max_tone_spread();
    let above: i128 = if (u.span as i128) < spread as i128 {
        spread as i128
    } else {
        u.span as i128
    };
    let top: i128 = hz as i128 + above;
    if top > MAX_BAND_FREQ as i128 {
        let mut why = "too high: tones/chirp would reach ".to_owned();
        push_fixed(&mut why, top, 1000, 0);
        why.append(" Hz, above the ");
        push_fixed(&mut why, MAX_BAND_FREQ as i128, 1000, 0);
        why.append(" Hz ceiling (Nyquist is ");
        push_decimal(&mut why, crate::SAMPLE_RATE as u128 / 2);
        why.append(" Hz)");
        return Err(why);
    }
    Ok(())
}

/// A frequency that is accepted stays legal whichever band is retuned to it: the
/// chirp clears the floor, and no profile's highest tone passes the ceiling. Nor does
/// the default band's chirp; the audible band's is wider, and stays under Nyquist.
pub proof fn accepted_frequencies_are_legal_in_every_band(hz: i32, band: Band, id: int)
    requires
        freq_refusal(hz as int) is None,
        band.lead == ultra().lead && band.span == ultra().span || band.lead == audio().lead
            && band.span == audio().span,
        profile::profile_of(id) is Some,
    ensures
        MIN_BAND_FREQ <= band.retuned(hz).signature().0,
        band.span == ultra().span ==> band.retuned(hz).signature().1 <= MAX_BAND_FREQ,
        band.retuned(hz).signature().1 <= 22_600_000,
        22_600_000 < crate::SAMPLE_RATE * 500,
        hz + profile::profile_of(id).unwrap().spread() <= MAX_BAND_FREQ,
{
    power2::lemma2_to64();
    assert(profile::fast().spread() == 1_200_000);
    assert(profile::normal().spread() == 600_000);
    assert(profile::robust().spread() == 900_000);
}

// --------------------------------------------------------------------------- //
// Band sets
// --------------------------------------------------------------------------- //
/// The bands one link knows about, plus a revision that bumps on every retune.
///
/// A running receiver watches the revision so it rebuilds its matched filters
/// instead of listening on the old frequency.
#[derive(Clone, Debug)]
pub struct BandSet {
    bands: Vec<Band>,
    revision: u64,
}

/// The contents of a [`BandSet`].
#[verifier::ext_equal]
pub struct BandSetView {
    pub bands: Seq<Band>,
    pub revision: u64,
}

impl View for BandSet {
    type V = BandSetView;

    closed spec fn view(&self) -> BandSetView {
        BandSetView { bands: self.bands@, revision: self.revision }
    }
}

/// The first band from `i` on that has this name.
pub open spec fn named_from(bands: Seq<Band>, name: Seq<char>, i: int) -> Option<int>
    decreases bands.len() - i,
{
    if i < 0 || i >= bands.len() {
        None
    } else if bands[i].name@ == name {
        Some(i)
    } else {
        named_from(bands, name, i + 1)
    }
}

/// The first band that has this name.
pub open spec fn named(bands: Seq<Band>, name: Seq<char>) -> Option<int> {
    named_from(bands, name, 0)
}

proof fn lemma_named_from(bands: Seq<Band>, name: Seq<char>, i: int)
    requires
        0 <= i,
    ensures
        match named_from(bands, name, i) {
            Some(k) => i <= k < bands.len() && bands[k].name@ == name && forall|j: int|
                i <= j < k ==> (#[trigger] bands[j]).name@ != name,
            None => forall|j: int| i <= j < bands.len() ==> (#[trigger] bands[j]).name@ != name,
        },
    decreases bands.len() - i,
{
    if i < bands.len() && bands[i].name@ != name {
        lemma_named_from(bands, name, i + 1);
    }
}

/// What [`named`] finds: a band with the name, and none before it.
pub proof fn lemma_named(bands: Seq<Band>, name: Seq<char>)
    ensures
        match named(bands, name) {
            Some(k) => 0 <= k < bands.len() && bands[k].name@ == name && forall|j: int|
                0 <= j < k ==> (#[trigger] bands[j]).name@ != name,
            None => forall|j: int| 0 <= j < bands.len() ==> (#[trigger] bands[j]).name@ != name,
        },
{
    lemma_named_from(bands, name, 0);
}

/// An earlier band has the chirp of band `i`.
pub open spec fn chirp_seen(bands: Seq<Band>, i: int) -> bool {
    exists|j: int| 0 <= j < i && (#[trigger] bands[j]).signature() == bands[i].signature()
}

/// The bands among the first `n` whose chirp no earlier band has.
pub open spec fn first_chirps(bands: Seq<Band>, n: nat) -> Seq<Band>
    decreases n,
{
    if n == 0 {
        Seq::empty()
    } else {
        let before = first_chirps(bands, (n - 1) as nat);
        if chirp_seen(bands, n - 1) {
            before
        } else {
            before.push(bands[n - 1])
        }
    }
}

/// The complaint about a band that is not in the set, its name already quoted.
pub fn unknown_band(quoted: &str) -> (why: String)
    ensures
        why@ == "unknown band "@ + quoted@,
{
    let mut why = "unknown band ".to_owned();
    why.append(quoted);
    why
}

impl Default for BandSet {
    fn default() -> (set: Self)
        ensures
            set@.bands == seq![ultra(), audio()],
            set@.revision == 0,
    {
        let mut bands: Vec<Band> = Vec::new();
        bands.push(ultra());
        bands.push(audio());
        assert(bands@ =~= seq![ultra(), audio()]);
        BandSet { bands, revision: 0 }
    }
}

impl BandSet {
    pub fn revision(&self) -> (r: u64)
        ensures
            r == self@.revision,
    {
        self.revision
    }

    pub fn all(&self) -> (bands: &[Band])
        ensures
            bands@ == self@.bands,
    {
        self.bands.as_slice()
    }

    /// Where the first band with this name stands.
    fn find(&self, name: &str) -> (at: Option<usize>)
        ensures
            match (at, named(self@.bands, name@)) {
                (Some(i), Some(k)) => i == k,
                (None, None) => true,
                _ => false,
            },
    {
        let wanted = name.to_owned();
        let mut i: usize = 0;
        while i < self.bands.len()
            invariant
                i <= self.bands@.len(),
                wanted@ == name@,
                self@.bands == self.bands@,
                named(self.bands@, name@) == named_from(self.bands@, name@, i as int),
            decreases self.bands@.len() - i,
        {
            let candidate = self.bands[i].name.to_owned();
            if candidate == wanted {
                return Some(i);
            }
            i = i + 1;
        }
        None
    }

    pub fn get(&self, name: &str) -> (band: Option<Band>)
        ensures
            band == (match named(self@.bands, name@) {
                Some(k) => Some(self@.bands[k]),
                None => None,
            }),
    {
        proof {
            lemma_named(self@.bands, name@);
        }
        match self.find(name) {
            Some(i) => Some(self.bands[i]),
            None => None,
        }
    }

    /// The band with this name. Callers hold names that came from `all()` or from
    /// [`ultra`] and [`audio`].
    pub fn expect(&self, name: &str) -> (band: Band)
        requires
            named(self@.bands, name@) is Some,
        ensures
            band == self@.bands[named(self@.bands, name@).unwrap()],
    {
        self.get(name).unwrap()
    }

    /// Retune a band's lowest data tone. The chirp and every profile's tones
    /// move with it, so both ends must agree -- it is a channel, not a preference.
    ///
    /// The revision goes up by one and no other band moves; a refused request
    /// changes nothing.
    pub fn set_base_freq(&mut self, name: &str, hz: i64) -> (r: Result<Band, String>)
        requires
            old(self)@.revision < u64::MAX,
        ensures
            match (freq_refusal(hz as int), named(old(self)@.bands, name@)) {
                (Some(why), _) => r matches Err(e) && e@ == why && final(self)@ == old(self)@,
                (None, None) => r matches Err(e) && e@ == "unknown band "@ + text::debug_text(name@)
                    && final(self)@ == old(self)@,
                (None, Some(k)) => {
                    let tuned = old(self)@.bands[k].retuned(hz as i32);
                    &&& r == Ok::<Band, String>(tuned)
                    &&& tuned.base_freq == hz
                    &&& final(self)@.bands == old(self)@.bands.update(k, tuned)
                    &&& final(self)@.revision == old(self)@.revision + 1
                },
            },
    {
        if let Err(e) = check_band_freq(hz) {
            return Err(e);
        }
        proof {
            lemma_named(self@.bands, name@);
        }
        match self.find(name) {
            None => Err(unknown_band(text::debug_str(name).as_str())),
            Some(i) => {
                let mut slot = self.bands[i];
                slot.base_freq = hz as i32;
                self.bands.set(i, slot);
                self.revision = self.revision + 1;
                Ok(slot)
            },
        }
    }

    /// One entry per *distinct* chirp, so co-tuned bands do not double-detect.
    pub fn distinct_chirps(&self) -> (out: Vec<Band>)
        ensures
            out@ == first_chirps(self@.bands, self@.bands.len()),
    {
        let mut out: Vec<Band> = Vec::new();
        let mut i: usize = 0;
        while i < self.bands.len()
            invariant
                i <= self.bands@.len(),
                self@.bands == self.bands@,
                out@ == first_chirps(self.bands@, i as nat),
            decreases self.bands@.len() - i,
        {
            let sig = self.bands[i].chirp_signature();
            let mut seen: bool = false;
            let mut j: usize = 0;
            while j < i
                invariant
                    j <= i < self.bands@.len(),
                    (sig.0 as int, sig.1 as int, sig.2 as int) == self.bands@[i as int].signature(),
                    seen == exists|m: int|
                        0 <= m < j && (#[trigger] self.bands@[m]).signature()
                            == self.bands@[i as int].signature(),
                decreases i - j,
            {
                let other = self.bands[j].chirp_signature();
                if other.0 == sig.0 && other.1 == sig.1 && other.2 == sig.2 {
                    seen = true;
                    assert(self.bands@[j as int].signature() == self.bands@[i as int].signature());
                }
                j = j + 1;
            }
            if !seen {
                out.push(self.bands[i]);
            }
            i = i + 1;
        }
        out
    }
}

/// The detectors cover every band's chirp, and no two of them share one.
pub proof fn each_chirp_is_detected_once(bands: Seq<Band>, n: nat)
    requires
        n <= bands.len(),
    ensures
        forall|k: int, l: int|
            0 <= k < l < first_chirps(bands, n).len() ==> (#[trigger] first_chirps(
                bands,
                n,
            )[k]).signature() != (#[trigger] first_chirps(bands, n)[l]).signature(),
        forall|i: int|
            0 <= i < n ==> exists|k: int|
                0 <= k < first_chirps(bands, n).len() && (#[trigger] first_chirps(
                    bands,
                    n,
                )[k]).signature() == (#[trigger] bands[i]).signature(),
        forall|k: int|
            0 <= k < first_chirps(bands, n).len() ==> exists|i: int|
                0 <= i < n && #[trigger] bands[i] == #[trigger] first_chirps(bands, n)[k],
    decreases n,
{
    if n > 0 {
        let m = (n - 1) as nat;
        each_chirp_is_detected_once(bands, m);
        let before = first_chirps(bands, m);
        let after = first_chirps(bands, n);
        if chirp_seen(bands, n - 1) {
            let j = choose|j: int|
                0 <= j < n - 1 && (#[trigger] bands[j]).signature() == bands[n - 1].signature();
            assert(exists|k: int|
                0 <= k < before.len() && (#[trigger] before[k]).signature() == bands[j].signature());
        } else {
            assert(after[before.len() as int] == bands[n - 1]);
            assert forall|i: int| 0 <= i < n implies exists|k: int|
                0 <= k < after.len() && (#[trigger] after[k]).signature() == (
                #[trigger] bands[i]).signature() by {
                if i < n - 1 {
                    let k = choose|k: int|
                        0 <= k < before.len() && (#[trigger] before[k]).signature()
                            == bands[i].signature();
                    assert(after[k] == before[k]);
                } else {
                    assert(after[before.len() as int].signature() == bands[i].signature());
                }
            }
            assert forall|k: int, l: int| 0 <= k < l < after.len() implies (
            #[trigger] after[k]).signature() != (#[trigger] after[l]).signature() by {
                assert(after[k] == before[k]);
                let i = choose|i: int| 0 <= i < m && #[trigger] bands[i] == before[k];
                if l == before.len() && bands[i].signature() == bands[n - 1].signature() {
                    assert(chirp_seen(bands, n - 1));
                }
            }
            assert forall|k: int| 0 <= k < after.len() implies exists|i: int|
                0 <= i < n && #[trigger] bands[i] == #[trigger] after[k] by {
                if k < before.len() {
                    let i = choose|i: int| 0 <= i < m && #[trigger] bands[i] == before[k];
                    assert(bands[i] == after[k]);
                } else {
                    assert(bands[n - 1] == after[k]);
                }
            }
        }
    }
}

/// Retuning moves one band and leaves the others, and their names, as they were;
/// the band can still be found under its name, at its new frequency.
pub proof fn a_retune_is_found_under_the_same_name(bands: Seq<Band>, name: Seq<char>, hz: i32)
    requires
        named(bands, name) is Some,
    ensures
        ({
            let k = named(bands, name).unwrap();
            let after = bands.update(k, bands[k].retuned(hz));
            &&& named(after, name) == Some(k)
            &&& after[k].base_freq == hz
            &&& forall|other: Seq<char>|
                other != name ==> #[trigger] named(after, other) == named(bands, other)
            &&& forall|j: int|
                0 <= j < bands.len() && j != k ==> #[trigger] after[j] == bands[j]
        }),
{
    lemma_named(bands, name);
    let k = named(bands, name).unwrap();
    let after = bands.update(k, bands[k].retuned(hz));
    lemma_same_names(bands, after, name, 0);
    assert forall|other: Seq<char>| other != name implies #[trigger] named(after, other) == named(
        bands,
        other,
    ) by {
        lemma_same_names(bands, after, other, 0);
    }
}

proof fn lemma_same_names(a: Seq<Band>, b: Seq<Band>, name: Seq<char>, i: int)
    requires
        0 <= i,
        a.len() == b.len(),
        forall|j: int| 0 <= j < a.len() ==> (#[trigger] a[j]).name == (#[trigger] b[j]).name,
    ensures
        named_from(a, name, i) == named_from(b, name, i),
    decreases a.len() - i,
{
    if i < a.len() {
        assert(a[i].name == b[i].name);
        lemma_same_names(a, b, name, i + 1);
    }
}

// --------------------------------------------------------------------------- //
// Tones
// --------------------------------------------------------------------------- //
/// The frequency of tone `i` of a profile in a band.
pub open spec fn tone(p: Profile, band: Band, i: int) -> int {
    band.base_freq + p.spacing * i
}

/// Absolute M-FSK tone frequencies for a profile in a given band.
pub fn tone_freqs(p: &Profile, band: &Band) -> (freqs: Vec<i64>)
    requires
        p.bits_per_symbol < usize::BITS,
        band.base_freq + p.spread() <= i64::MAX,
    ensures
        freqs@.len() == power2::pow2(p.bits_per_symbol as nat),
        forall|i: int| 0 <= i < freqs@.len() ==> #[trigger] freqs@[i] == tone(*p, *band, i),
{
    let n: usize = p.n_tones();
    let mut freqs: Vec<i64> = Vec::with_capacity(n);
    let mut i: usize = 0;
    while i < n
        invariant
            i <= n,
            n == power2::pow2(p.bits_per_symbol as nat),
            band.base_freq + p.spread() <= i64::MAX,
            freqs@.len() == i,
            forall|k: int| 0 <= k < i ==> #[trigger] freqs@[k] == tone(*p, *band, k),
        decreases n - i,
    {
        assert(0 <= p.spacing * i <= p.spread()) by (nonlinear_arith)
            requires
                0 <= i <= n - 1,
                0 <= p.spacing,
                p.spread() == p.spacing * (n - 1),
        ;
        assert(p.spacing * i == p.spacing as i128 * i as i128);
        let f: i128 = band.base_freq as i128 + p.spacing as i128 * i as i128;
        freqs.push(f as i64);
        i = i + 1;
    }
    freqs
}

/// The tones from `i` on in kilohertz, with a comma between them.
pub open spec fn tone_list(p: Profile, band: Band, i: int, n: int) -> Seq<char>
    decreases n - i,
{
    if i >= n {
        Seq::empty()
    } else if i == n - 1 {
        text::double_text(tone(p, band, i), 1_000_000, 3)
    } else {
        text::double_text(tone(p, band, i), 1_000_000, 3) + ", "@ + tone_list(p, band, i + 1, n)
    }
}

/// The line that says where a band sits.
pub open spec fn band_line(band: Band) -> Seq<char> {
    "band "@ + band.name@ + ": base "@ + text::double_text(band.base_freq as int, 1_000_000, 3)
        + " kHz, chirp "@ + text::double_text(band.signature().0, 1_000_000, 3) + "-"@
        + text::double_text(band.signature().1, 1_000_000, 3) + " kHz ("@ + (if band.base_freq
        < AUDIBLE_LIMIT {
        "AUDIBLE"@
    } else {
        "inaudible to most people"@
    }) + ")"@
}

/// The line that says where a profile's tones land in a band.
pub open spec fn profile_line(id: int, p: Profile, band: Band) -> Seq<char> {
    let n = power2::pow2(p.bits_per_symbol as nat);
    "  profile "@ + text::decimal(id as nat) + " "@ + text::left_aligned(p.name@, 7) + " "@
        + text::decimal(n) + "-FSK  tones "@ + tone_list(p, band, 0, n as int) + " kHz"@
}

/// Whether `id` is to be described.
pub open spec fn selected(only: Option<usize>, id: int) -> bool {
    match only {
        Some(o) => o == id,
        None => true,
    }
}

/// The plan of a band for the first `n` profiles.
pub open spec fn plan_lines(band: Band, only: Option<usize>, n: nat) -> Seq<Seq<char>>
    decreases n,
{
    if n == 0 {
        seq![band_line(band)]
    } else {
        let before = plan_lines(band, only, (n - 1) as nat);
        if selected(only, n - 1) {
            before.push(profile_line(n - 1, profile::profile_of(n - 1).unwrap(), band))
        } else {
            before
        }
    }
}

fn push_tone_list(s: &mut String, p: &Profile, band: &Band)
    requires
        p.bits_per_symbol < usize::BITS,
        band.base_freq + p.spread() <= i64::MAX,
    ensures
        final(s)@ == old(s)@ + tone_list(
            *p,
            *band,
            0,
            power2::pow2(p.bits_per_symbol as nat) as int,
        ),
{
    let freqs = tone_freqs(p, band);
    let n: usize = freqs.len();
    let ghost whole = old(s)@ + tone_list(*p, *band, 0, n as int);
    let mut i: usize = 0;
    while i < n
        invariant
            i <= n,
            n == freqs@.len(),
            forall|k: int| 0 <= k < n ==> #[trigger] freqs@[k] == tone(*p, *band, k),
            whole == s@ + tone_list(*p, *band, i as int, n as int),
        decreases n - i,
    {
        let ghost before = s@;
        push_double(s, freqs[i] as i128, 1_000_000, 3);
        if i + 1 < n {
            s.append(", ");
        }
        i = i + 1;
        assert(s@ + tone_list(*p, *band, i as int, n as int) =~= before + tone_list(
            *p,
            *band,
            i - 1,
            n as int,
        ));
    }
    assert(s@ =~= whole);
}

/// Human-readable description of where a band currently sits.
pub fn band_plan(band: &Band, only: Option<usize>) -> (out: Vec<String>)
    ensures
        text::lines(out@) == plan_lines(*band, only, profile::PROFILE_COUNT as nat),
{
    let mut head = "band ".to_owned();
    head.append(band.name);
    head.append(": base ");
    push_double(&mut head, band.base_freq as i128, 1_000_000, 3);
    head.append(" kHz, chirp ");
    push_double(&mut head, band.chirp_f0() as i128, 1_000_000, 3);
    head.append("-");
    push_double(&mut head, band.chirp_f1() as i128, 1_000_000, 3);
    head.append(" kHz (");
    head.append(
        if band.audible() {
            "AUDIBLE"
        } else {
            "inaudible to most people"
        },
    );
    head.append(")");
    let mut out = no_lines();
    push_line(&mut out, head);
    assert(text::lines(out@) =~= plan_lines(*band, only, 0));
    let mut id: usize = 0;
    while id < profile::PROFILE_COUNT
        invariant
            id <= profile::PROFILE_COUNT,
            text::lines(out@) == plan_lines(*band, only, id as nat),
        decreases profile::PROFILE_COUNT - id,
    {
        let wanted: bool = match only {
            Some(o) => o == id,
            None => true,
        };
        if wanted {
            if let Some(p) = profile::profile(id) {
                proof {
                    power2::lemma2_to64();
                }
                let mut line = "  profile ".to_owned();
                push_decimal(&mut line, id as u128);
                line.append(" ");
                push_left_aligned(&mut line, p.name, 7);
                line.append(" ");
                push_decimal(&mut line, p.n_tones() as u128);
                line.append("-FSK  tones ");
                push_tone_list(&mut line, &p, band);
                line.append(" kHz");
                push_line(&mut out, line);
            }
        }
        id = id + 1;
    }
    out
}

/// A frequency is refused exactly where it lies outside 0.7 to 20.2 kHz.
pub proof fn usable_frequencies(hz: int)
    ensures
        freq_refusal(hz) is None <==> 700_000 <= hz <= 20_200_000,
        hz <= 0 ==> freq_refusal(hz) == Some("frequency must be a positive number"@),
{
}

/// The tones of a profile start at the band's base and lie its spacing apart; retuning
/// the band moves them all, and its chirp, by as much as it moves the base, and changes
/// nothing else.
pub proof fn tones_and_chirp_move_with_the_band(p: Profile, band: Band, hz: i32, i: int)
    ensures
        tone(p, band, 0) == band.base_freq,
        tone(p, band, i + 1) - tone(p, band, i) == p.spacing,
        tone(p, band, power2::pow2(p.bits_per_symbol as nat) - 1) - tone(p, band, 0)
            == p.spread(),
        ({
            let to = band.retuned(hz);
            let by = hz - band.base_freq;
            &&& tone(p, to, i) == tone(p, band, i) + by
            &&& to.signature().0 == band.signature().0 + by
            &&& to.signature().1 == band.signature().1 + by
            &&& to.signature().2 == band.signature().2
            &&& to.base_freq == hz
            &&& to.name == band.name && to.chirp_ms == band.chirp_ms
            &&& to.lead == band.lead && to.span == band.span
        }),
        band.signature().0 + band.lead == band.base_freq,
        band.signature().1 - band.span == band.base_freq,
{
    assert(p.spacing * (i + 1) == p.spacing * i + p.spacing) by (nonlinear_arith);
    assert(p.spacing * 0int == 0);
}

/// The plan of a band is its own line and one for each profile that is to be described,
/// in order.
pub proof fn plans_list_the_profiles(band: Band, only: Option<usize>, n: nat)
    requires
        n <= 3,
    ensures
        ({
            let lines = plan_lines(band, only, n);
            &&& lines[0] == band_line(band)
            &&& only is None ==> lines.len() == n + 1 && forall|id: int|
                0 <= id < n ==> #[trigger] lines[id + 1] == profile_line(
                    id,
                    profile::profile_of(id).unwrap(),
                    band,
                )
            &&& only matches Some(o) ==> {
                &&& lines.len() == (if o < n {
                    2nat
                } else {
                    1
                })
                &&& o < n ==> lines[1] == profile_line(
                    o as int,
                    profile::profile_of(o as int).unwrap(),
                    band,
                )
            }
        }),
    decreases n,
{
    if n > 0 {
        plans_list_the_profiles(band, only, (n - 1) as nat);
        let before = plan_lines(band, only, (n - 1) as nat);
        let lines = plan_lines(band, only, n);
        if only is None {
            assert forall|id: int| 0 <= id < n implies #[trigger] lines[id + 1] == profile_line(
                id,
                profile::profile_of(id).unwrap(),
                band,
            ) by {
                if id < n - 1 {
                    assert(lines[id + 1] == before[id + 1]);
                }
            }
        }
    }
}

/// One band more takes nothing from the chirps to look for: it adds its own behind them,
/// or nothing where one of them is the same.
pub proof fn more_bands_add_their_chirps(bands: Seq<Band>, n: nat)
    requires
        n < bands.len(),
    ensures
        first_chirps(bands, n + 1) == first_chirps(bands, n) || first_chirps(bands, n + 1)
            == first_chirps(bands, n).push(bands[n as int]),
        first_chirps(bands, n + 1) == first_chirps(bands, n) <==> exists|j: int|
            0 <= j < n && (#[trigger] bands[j]).signature() == bands[n as int].signature(),
        first_chirps(bands, 0).len() == 0,
{
    assert(first_chirps(bands, n).push(bands[n as int]).len() == first_chirps(bands, n).len() + 1);
}

/// What is said of a band and of a profile in it: the lowest tone, the chirp and whether
/// it can be heard; the tones, one behind the other.
pub proof fn plans_say_where_the_tones_are(id: int, p: Profile, band: Band, i: int, n: int)
    ensures
        band_line(band) == "band "@ + band.name@ + ": base "@ + text::double_text(
            band.base_freq as int,
            1_000_000,
            3,
        ) + " kHz, chirp "@ + text::double_text(band.base_freq - band.lead, 1_000_000, 3) + "-"@
            + text::double_text(band.base_freq + band.span, 1_000_000, 3) + " kHz ("@ + (
        if band.base_freq < 17_000_000 {
            "AUDIBLE"@
        } else {
            "inaudible to most people"@
        }) + ")"@,
        profile_line(id, p, band) == "  profile "@ + text::decimal(id as nat) + " "@
            + text::left_aligned(p.name@, 7) + " "@ + text::decimal(
            power2::pow2(p.bits_per_symbol as nat),
        ) + "-FSK  tones "@ + tone_list(
            p,
            band,
            0,
            power2::pow2(p.bits_per_symbol as nat) as int,
        ) + " kHz"@,
        i < n - 1 ==> tone_list(p, band, i, n) == tone_list(p, band, i, i + 1) + ", "@ + tone_list(
            p,
            band,
            i + 1,
            n,
        ),
        tone_list(p, band, i, i + 1) == text::double_text(band.base_freq + p.spacing * i, 1_000_000, 3),
        n <= i ==> tone_list(p, band, i, n).len() == 0,
{
}

/// A frequency that is refused is refused with where the chirp would start or end.
pub proof fn refusals_say_where_it_would_reach(hz: int)
    ensures
        0 < hz < 700_000 ==> freq_refusal(hz) == Some(
            "too low: the chirp would start at "@ + text::fixed_point(hz - 400_000, 1000, 0)
                + " Hz, below the "@ + text::fixed_point(300_000, 1000, 0) + " Hz floor"@,
        ),
        hz > 20_200_000 ==> freq_refusal(hz) == Some(
            "too high: tones/chirp would reach "@ + text::fixed_point(hz + 1_400_000, 1000, 0)
                + " Hz, above the "@ + text::fixed_point(21_600_000, 1000, 0)
                + " Hz ceiling (Nyquist is "@ + text::decimal(24_000) + " Hz)"@,
        ),
{
}

} // verus!

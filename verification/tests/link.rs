//! The library driven by real audio: tones are rendered, mixed with noise, filtered
//! and demodulated here, and everything in between is decided by the library.

use std::f64::consts::PI;

use acoustic_modem::band::{audio, tone_freqs, ultra, Band};
use acoustic_modem::chirp::{strongest, PreambleDetector};
use acoustic_modem::dispatch::Dispatch;
use acoustic_modem::framing::{
    parse, CtrlFrame, FragHeader, Frame, BROADCAST, FRAG_PAYLOAD, T_TEXT,
};
use acoustic_modem::mfsk::{bits_to_symbols, read_window, symbols_to_bits, winner};
use acoustic_modem::packet::{
    data_offset_in_packet, encode_packet, frame_symbols, header_symbols, try_decode, DecodeResult,
    PacketPlan, Want, CONFIDENCE_ONE,
};
use acoustic_modem::profile::{profile, Profile, PROFILE_COUNT};
use acoustic_modem::receiver::{worth_filtering, Intake, NextStep, RxMachine};
use acoustic_modem::sender::{Phase, Transfer};
use acoustic_modem::trx::{Event, Level, Stats, Transceiver};
use rustfft::num_complex::Complex;
use rustfft::FftPlanner;

const RATE: f64 = 48_000.0;

/// Scores that one transform gives.
const FILTER_STRETCH: usize = (1 << 16) - 2 * 2_880;

// ---- signal processing ---------------------------------------------------- //
fn hann(n: usize) -> Vec<f64> {
    if n == 1 {
        return vec![1.0];
    }
    (0..n)
        .map(|k| 0.5 - 0.5 * (2.0 * PI * k as f64 / (n - 1) as f64).cos())
        .collect()
}

fn template(band: &Band) -> Vec<Complex<f64>> {
    let n = band.chirp_samples();
    let f0 = band.chirp_f0() as f64 / 1000.0;
    let f1 = band.chirp_f1() as f64 / 1000.0;
    let k = (f1 - f0) / (n as f64 / RATE);
    let w = hann(n);
    (0..n)
        .map(|i| {
            let t = i as f64 / RATE;
            let p = 2.0 * PI * (f0 * t + 0.5 * k * t * t);
            Complex::new(p.cos() * w[i], p.sin() * w[i])
        })
        .collect()
}

fn scores(band: &Band, x: &[f32]) -> Vec<f32> {
    let tpl = template(band);
    let m = tpl.len();
    if x.len() < m {
        return Vec::new();
    }
    let l = x.len() - m + 1;
    let nfft = (x.len() + m).next_power_of_two();
    let mut planner = FftPlanner::new();
    let fwd = planner.plan_fft_forward(nfft);
    let inv = planner.plan_fft_inverse(nfft);
    let zero = Complex::new(0.0, 0.0);
    let mut a = vec![zero; nfft];
    for (b, &v) in a.iter_mut().zip(x) {
        b.re = v as f64;
    }
    let mut t = vec![zero; nfft];
    t[..m].copy_from_slice(&tpl);
    fwd.process(&mut a);
    fwd.process(&mut t);
    for (b, s) in a.iter_mut().zip(&t) {
        *b *= s.conj();
    }
    inv.process(&mut a);
    let norm = tpl.iter().map(|c| c.norm_sqr()).sum::<f64>().sqrt();
    let floor = 1e-4 * 1e-4 * m as f64;
    let mut prefix = vec![0.0f64];
    for &v in x {
        prefix.push(prefix[prefix.len() - 1] + v as f64 * v as f64);
    }
    (0..l)
        .map(|i| {
            let energy = (prefix[i + m] - prefix[i]).max(floor);
            (a[i].norm() / nfft as f64 / (energy.sqrt() * norm)) as f32
        })
        .collect()
}

fn band_rms(band: &Band, seg: &[f32]) -> f64 {
    let n = seg.len();
    if n < 64 {
        return 0.0;
    }
    let w = hann(n);
    let mut buf: Vec<Complex<f64>> = seg
        .iter()
        .zip(&w)
        .map(|(&v, wi)| Complex::new(v as f64 * wi, 0.0))
        .collect();
    FftPlanner::new().plan_fft_forward(n).process(&mut buf);
    let mut sum = 0.0;
    for (i, c) in buf.iter().take(n / 2 + 1).enumerate() {
        let f = i as f64 * RATE / n as f64 * 1000.0;
        if f >= band.chirp_f0() as f64 && f <= band.chirp_f1() as f64 {
            sum += c.norm_sqr();
        }
    }
    (2.0 * sum).sqrt() / n as f64
}

fn lead_in_ok(det: &PreambleDetector, x: &[f32], i: usize) -> bool {
    match det.lead_in_window(x.len(), i) {
        None => true,
        Some((from, to)) => {
            band_rms(&det.band, &x[from..i]) <= 0.5 * band_rms(&det.band, &x[i..to])
        }
    }
}

fn rank(v: f32) -> i32 {
    let b = v.to_bits() as i32;
    b ^ (((b >> 31) as u32) >> 1) as i32
}

fn rank64(v: f64) -> i64 {
    let b = v.to_bits() as i64;
    b ^ (((b >> 63) as u64) >> 1) as i64
}

fn ranks(sc: &[f32]) -> Vec<i32> {
    sc.iter().map(|&v| rank(v)).collect()
}

fn tone(freq: f64, n: usize) -> Vec<f32> {
    let fade = 96.min(n / 8);
    (0..n)
        .map(|i| {
            let env = if fade > 1 && i < fade {
                i as f64 / (fade - 1) as f64
            } else if fade > 1 && i >= n - fade {
                (n - 1 - i) as f64 / (fade - 1) as f64
            } else {
                1.0
            };
            (0.55 * (2.0 * PI * freq * i as f64 / RATE).sin() * env) as f32
        })
        .collect()
}

fn modulate(symbols: &[usize], p: &Profile, band: &Band) -> Vec<f32> {
    let tones: Vec<Vec<f32>> = tone_freqs(p, band)
        .iter()
        .map(|&f| tone(f as f64 / 1000.0, p.symbol_samples()))
        .collect();
    let mut out = Vec::new();
    for &s in symbols {
        out.extend_from_slice(&tones[s]);
        out.resize(out.len() + p.guard_samples(), 0.0);
    }
    out
}

fn render(plan: &PacketPlan, p: &Profile, band: &Band) -> Vec<f32> {
    let mut out = vec![0.0f32; plan.lead_in];
    out.extend(template(band).iter().map(|c| (0.7 * c.im) as f32));
    out.resize(out.len() + plan.gap, 0.0);
    out.extend(modulate(&plan.symbols, p, band));
    out.resize(out.len() + plan.tail, 0.0);
    let peak = out.iter().fold(0.0f32, |a, &v| a.max(v.abs()));
    out.iter_mut().for_each(|v| *v *= 0.9 / peak);
    out
}

fn packet(payload: &[u8], id: usize, band: &Band) -> Vec<f32> {
    render(&encode_packet(payload, id, band), &profile(id).unwrap(), band)
}

fn audio_to_bits(x: &[f32], start: isize, n: usize, p: &Profile, band: &Band) -> (Vec<u8>, u128) {
    let Some(first) = read_window(x.len(), start, n, p) else {
        return (Vec::new(), 0);
    };
    let len = p.symbol_samples();
    let w = hann(len);
    let freqs = tone_freqs(p, band);
    let kernel: Vec<Vec<Complex<f64>>> = freqs
        .iter()
        .map(|&f| {
            (0..len)
                .map(|k| {
                    let ph = -2.0 * PI * k as f64 / RATE * f as f64 / 1000.0;
                    Complex::new(ph.cos() * w[k], ph.sin() * w[k])
                })
                .collect()
        })
        .collect();
    let mut symbols = Vec::new();
    let mut conf = 0.0;
    for s in 0..n {
        let base = first + s * p.step_samples();
        let seg = &x[base..base + len];
        let energy: Vec<f64> = kernel
            .iter()
            .map(|row| {
                let (mut re, mut im) = (0.0, 0.0);
                for (k, v) in row.iter().zip(seg) {
                    re += k.re * *v as f64;
                    im += k.im * *v as f64;
                }
                Complex::new(re, im).norm()
            })
            .collect();
        let order: Vec<i64> = energy.iter().map(|&e| rank64(e)).collect();
        symbols.push(winner(&order));
        let mut sorted = energy;
        sorted.sort_by(f64::total_cmp);
        conf += sorted[sorted.len() - 1] / (sorted[sorted.len() - 2] + 1e-12);
    }
    let bits = symbols_to_bits(&symbols, p.bits_per_symbol as usize);
    (bits, (conf / n as f64 * CONFIDENCE_ONE as f64) as u128)
}

fn search(x: &[f32], ids: &[usize], data_start: isize, band: &Band) -> DecodeResult {
    let mut s = try_decode(ids, data_start, 4096);
    loop {
        let (probe, n) = match s.want() {
            Want::Nothing => return s.result(),
            Want::Header(p) => (p, header_symbols(&profile(p.profile_id).unwrap())),
            Want::Frame(p, len) => (p, frame_symbols(len, &profile(p.profile_id).unwrap())),
        };
        let p = profile(probe.profile_id).unwrap();
        let (bits, conf) = audio_to_bits(x, probe.start, n, &p, band);
        s.tell(&bits, conf);
    }
}

fn in_silence(pkt: &[f32]) -> Vec<f32> {
    let mut stream = vec![0.0f32; 3000];
    stream.extend_from_slice(pkt);
    stream.resize(stream.len() + 3000, 0.0);
    stream
}

/// Where the chirp starts: the strongest score of the whole stream.
///
/// The filter goes over it in stretches that overlap by a template.
fn locate(stream: &[f32], band: &Band) -> usize {
    let m = band.chirp_samples();
    let mut sc = Vec::new();
    let mut from = 0;
    while from + m <= stream.len() {
        let to = stream.len().min(from + FILTER_STRETCH + m - 1);
        sc.extend(scores(band, &stream[from..to]));
        from += FILTER_STRETCH;
    }
    assert_eq!(sc.len(), stream.len() - m + 1);
    strongest(&ranks(&sc)).unwrap()
}

fn noise(stream: &mut [f32], amount: f32) {
    let mut seed = 0x9E3779B97F4A7C15u64;
    for v in stream.iter_mut() {
        seed = seed.wrapping_mul(6364136223846793005).wrapping_add(1);
        *v += ((seed >> 40) as f32 / (1u64 << 23) as f32 - 1.0) * amount;
    }
}

// ---- demodulator ---------------------------------------------------------- //
#[test]
fn bits_survive_a_clean_round_trip_in_every_profile() {
    for id in 0..PROFILE_COUNT {
        let p = profile(id).unwrap();
        let bits: Vec<u8> = (0..96).map(|i| ((i * 7 + i / 3) % 2) as u8).collect();
        let symbols = bits_to_symbols(&bits, p.bits_per_symbol as usize);
        let x = modulate(&symbols, &p, &ultra());
        let n = bits.len() / p.bits_per_symbol as usize;
        let (back, conf) = audio_to_bits(&x, 0, n, &p, &ultra());
        assert_eq!(back, bits, "{} round trip", p.name);
        assert!(conf > 2 * CONFIDENCE_ONE, "{} confidence {conf} should be decisive", p.name);
    }
}

#[test]
fn a_read_past_the_end_is_refused_rather_than_panicking() {
    let p = profile(0).unwrap();
    let x = modulate(&bits_to_symbols(&[1, 0, 1, 0], 2), &p, &ultra());
    let (bits, conf) = audio_to_bits(&x, 0, 999, &p, &ultra());
    assert!(bits.is_empty());
    assert_eq!(conf, 0);
    let (bits, _) = audio_to_bits(&x, -5, 1, &p, &ultra());
    assert!(bits.is_empty());
}

// ---- preamble ------------------------------------------------------------- //
#[test]
fn locks_onto_the_chirp_sample_accurately() {
    for band in [ultra(), audio()] {
        let mut stream = vec![0.0f32; 3000];
        stream.extend(template(&band).iter().map(|c| (0.7 * c.im) as f32));
        stream.resize(stream.len() + 3000, 0.0);
        let mut seed = 12345u64;
        for v in stream.iter_mut() {
            seed = seed.wrapping_mul(6364136223846793005).wrapping_add(1);
            *v += ((seed >> 33) as f64 / (1u64 << 31) as f64 - 1.0) as f32 * 0.01;
        }
        let sc = scores(&band, &stream);
        let order = ranks(&sc);
        let peak = strongest(&order).unwrap();
        assert_eq!(peak, 3000, "{}: chirp starts at sample 3000", band.name);
        assert!(sc[peak] > 0.6, "{}: peak {} should be ~0.7", band.name, sc[peak]);
        let floor = f32::from_bits(acoustic_modem::chirp::median(&order) as u32);
        assert!(floor < 0.1, "{}: noise floor {floor} too high", band.name);
        let det = PreambleDetector::with_default_threshold(band);
        assert_eq!(det.score_count(stream.len()), sc.len());
        assert_eq!(det.peaks(&order), vec![3000]);
    }
}

#[test]
fn digital_silence_produces_no_detection() {
    let det = PreambleDetector::with_default_threshold(ultra());
    let sc = ranks(&scores(&ultra(), &vec![0.0f32; 20_000]));
    assert!(det.peaks(&sc).is_empty());
    assert!(sc.iter().all(|&v| v < det.threshold));
}

#[test]
fn payload_tones_are_rejected_by_the_lead_in_check() {
    // A steady in-band tone should not be accepted as a preamble even if it
    // scrapes past the threshold: it has no quiet run-up.
    let det = PreambleDetector::with_default_threshold(ultra());
    let n = 20_000;
    let x: Vec<f32> = (0..n)
        .map(|i| (0.5 * (2.0 * PI * 18_600.0 * i as f64 / RATE).sin()) as f32)
        .collect();
    assert!(!lead_in_ok(&det, &x, n / 2));
}

// ---- packets -------------------------------------------------------------- //
fn round_trip(payload: &[u8], id: usize, band: Band) -> DecodeResult {
    let stream = in_silence(&packet(payload, id, &band));
    let peak = locate(&stream, &band);
    let start = (peak + data_offset_in_packet(&band)) as isize;
    search(&stream, &[id], start, &band)
}

fn every_payload_round_trips(id: usize, band: Band) {
    let payloads: Vec<Vec<u8>> = vec![
        b"".to_vec(),
        b"x".to_vec(),
        b"hello acoustic world".to_vec(),
        (0u8..=200).collect(),
    ];
    for pl in &payloads {
        let r = round_trip(pl, id, band);
        assert!(r.ok, "{}/{id} failed: {}", band.name, r.reason);
        assert_eq!(&r.payload, pl, "{}/{id}", band.name);
    }
}

#[test]
fn every_profile_round_trips_in_every_band() {
    for band in [ultra(), audio()] {
        for id in 0..PROFILE_COUNT {
            every_payload_round_trips(id, band);
        }
    }
}

#[test]
fn the_receiver_adapts_to_the_senders_profile() {
    // The decoder is told to try every profile; the header says which one
    // was really used, and that is what comes back.
    for id in 0..PROFILE_COUNT {
        let band = ultra();
        let stream = in_silence(&packet(b"adapt me", id, &band));
        let peak = locate(&stream, &band);
        let all: Vec<usize> = (0..PROFILE_COUNT).collect();
        let r = search(&stream, &all, (peak + data_offset_in_packet(&band)) as isize, &band);
        assert!(r.ok, "{id}: {}", r.reason);
        assert_eq!(r.profile_id, Some(id));
        assert_eq!(r.payload, b"adapt me");
    }
}

#[test]
fn a_receiver_on_the_wrong_frequency_cannot_read_it() {
    // Retuning really is a channel, not a preference.
    let mut tuned = ultra();
    tuned.base_freq = 19_000_000;
    let stream = in_silence(&packet(b"secret", 1, &tuned));
    // Decode at the correct sample position but with the old tuning.
    let start = (3000 + data_offset_in_packet(&ultra())) as isize;
    let r = search(&stream, &[1], start, &ultra());
    assert!(!r.ok);
}

// ---- streaming receiver --------------------------------------------------- //
struct Ear {
    m: RxMachine,
    buf: Vec<f32>,
    dets: Vec<PreambleDetector>,
    events: Vec<Event>,
    /// Payloads with the profile and band they came in.
    heard: Vec<(Vec<u8>, usize, Band)>,
}

fn detectors(t: &Transceiver) -> Vec<PreambleDetector> {
    let threshold = t.config().detect_threshold;
    t.bands()
        .distinct_chirps()
        .into_iter()
        .map(|b| PreambleDetector::new(b, threshold))
        .collect()
}

impl Ear {
    fn new(t: &Transceiver) -> Ear {
        let (m, note) = RxMachine::new(
            t.active_band(),
            t.bands().revision(),
            t.config().detect_threshold,
            Stats::default(),
        );
        Ear { m, buf: Vec::new(), dets: detectors(t), events: vec![note], heard: Vec::new() }
    }

    fn feed(&mut self, t: &Transceiver, chunk: &[f32], transmitting: bool, rearm: bool) {
        let (intake, mut notes) = self.m.intake(
            chunk.len(),
            t.bands().revision(),
            t.active_band(),
            transmitting,
            rearm,
        );
        self.events.append(&mut notes);
        match intake {
            Intake::Retuned => {
                self.buf.clear();
                self.dets = detectors(t);
                return;
            }
            Intake::Muted { .. } => {
                self.buf.clear();
                return;
            }
            Intake::Admitted { drop } => {
                self.buf.extend_from_slice(chunk);
                self.buf.drain(..drop);
            }
        }
        assert_eq!(self.buf.len(), self.m.held());
        loop {
            match self.m.next_step() {
                NextStep::Search => self.search(t),
                NextStep::Header => self.read_header(),
                NextStep::Body => self.read_body(),
                NextStep::Progress => {
                    let note = self.m.progress();
                    self.events.push(note);
                }
                NextStep::Rest => return,
            }
        }
    }

    fn search(&mut self, t: &Transceiver) {
        let Some(mut scan) = self.m.begin_search() else { return };
        for det in &self.dets {
            let seg = &self.buf[scan.off..];
            if !worth_filtering(seg.len(), det.m()) {
                continue;
            }
            let sc = ranks(&scores(&det.band, seg));
            let mut trial = det.begin_peaks(&sc);
            while let Some(j) = trial.want() {
                trial.tell(lead_in_ok(det, &self.buf, scan.off + j));
            }
            self.m.examine(&mut scan, det, &sc, &trial);
        }
        let mut notes = self.m.end_search(&scan, t.config().active_profile);
        self.events.append(&mut notes);
    }

    fn read_header(&mut self) {
        let mut trial = self.m.begin_header();
        while let Some(probe) = trial.want() {
            let p = profile(probe.profile_id).unwrap();
            let n = header_symbols(&p);
            let (bits, conf) = audio_to_bits(&self.buf, probe.start, n, &p, &self.m.band());
            assert!(!bits.is_empty(), "a header was tried before it had arrived");
            trial.tell(&bits, conf);
        }
        let mut notes = self.m.end_header(&trial);
        self.events.append(&mut notes);
    }

    fn read_body(&mut self) {
        let mut trial = self.m.begin_body();
        let id = trial.profile_id();
        let p = profile(id).unwrap();
        let band = self.m.band();
        while let Some(at) = trial.want() {
            let n = frame_symbols(trial.length(), &p);
            let (bits, conf) = audio_to_bits(&self.buf, at, n, &p, &band);
            trial.tell(&bits, conf);
        }
        let (note, payload) = self.m.end_body(trial);
        self.events.push(note);
        if let Some(payload) = payload {
            self.heard.push((payload, id, band));
        }
    }

    fn feed_all(&mut self, t: &Transceiver, stream: &[f32]) {
        for chunk in stream.chunks(8192) {
            self.feed(t, chunk, false, false);
        }
    }
}

/// A broadcast text frame, deliberately not ack-requesting.
fn frame(text: &str, id: usize, idx: u16, total: u16, mid: u16, gain: f32, band: &Band) -> Vec<f32> {
    let hdr = FragHeader {
        kind: T_TEXT,
        ack_req: false,
        src: BROADCAST,
        dst: BROADCAST,
        msg_id: mid,
        frag_idx: idx,
        frag_total: total,
    };
    packet(&hdr.encode(text.as_bytes()), id, band)
        .into_iter()
        .map(|v| v * gain)
        .collect()
}

struct Outcome {
    texts: Vec<String>,
    stats: Stats,
    events: Vec<Event>,
}

fn texts(events: &[Event]) -> Vec<String> {
    events
        .iter()
        .filter_map(|e| match e {
            Event::Text(t) => Some(t.clone()),
            _ => None,
        })
        .collect()
}

fn logs(events: &[Event]) -> Vec<(Level, String)> {
    events
        .iter()
        .filter_map(|e| match e {
            Event::Log(l, t) => Some((*l, t.clone())),
            _ => None,
        })
        .collect()
}

fn run(frames: Vec<Vec<f32>>, hint: usize, hiss: f32, tune: Option<i64>) -> Outcome {
    let mut stream = vec![0.0f32; (RATE * 0.3) as usize];
    for f in &frames {
        stream.extend_from_slice(f);
        stream.resize(stream.len() + (RATE * 0.15) as usize, 0.0);
    }
    stream.resize(stream.len() + (RATE * 0.3) as usize, 0.0);
    noise(&mut stream, hiss);

    let mut t = Transceiver::new(0x1111);
    let mut c = t.config();
    c.active_profile = hint;
    t.update_config(c);
    let mut ear = Ear::new(&t);
    if let Some(hz) = tune {
        ear.feed(&t, &vec![0.0; 1000], false, false);
        t.set_frequency("ULTRA", hz).unwrap();
        ear.feed(&t, &vec![0.0; 1000], false, false);
    }
    ear.feed_all(&t, &stream);
    let mut events = Vec::new();
    for (payload, _, _) in ear.heard.drain(..) {
        let d = t.handle_frame(&payload);
        events.extend(d.events);
        if let Some((hdr, frag)) = d.fragment {
            events.extend(t.reassemble(&hdr, frag, 0));
        }
    }
    events.extend(ear.events);
    Outcome { texts: texts(&events), stats: ear.m.stats(), events }
}

#[test]
fn a_single_frame_arrives_in_every_profile() {
    for id in 0..PROFILE_COUNT {
        let o = run(vec![frame("hi there", id, 0, 1, 1, 0.5, &ultra())], id, 0.01, None);
        assert_eq!(o.texts, vec!["hi there".to_string()], "{id}");
        assert_eq!((o.stats.rx_ok, o.stats.rx_bad), (1, 0), "{id} det={}", o.stats.detections);
    }
}

#[test]
fn the_receiver_adapts_when_the_sender_used_another_profile() {
    // Configured for NORMAL, sent as FAST. The header says which, and that wins.
    let o = run(vec![frame("adapt me", 0, 0, 1, 1, 0.5, &ultra())], 1, 0.01, None);
    assert_eq!(o.texts, vec!["adapt me".to_string()]);
}

#[test]
fn the_audible_band_is_a_peer_not_a_fallback() {
    // A receiver whose own setting says ULTRA still picks up an AUDIO packet:
    // it runs one matched filter per band.
    let o = run(vec![frame("audible band works", 1, 0, 1, 1, 0.5, &audio())], 1, 0.01, None);
    assert_eq!(o.texts, vec!["audible band works".to_string()]);
}

#[test]
fn a_weak_signal_in_louder_noise_still_decodes() {
    let o = run(vec![frame("quiet", 2, 0, 1, 1, 0.12, &ultra())], 2, 0.02, None);
    assert_eq!(
        o.texts,
        vec!["quiet".to_string()],
        "det={} bad={}",
        o.stats.detections,
        o.stats.rx_bad
    );
}

#[test]
fn a_multi_fragment_message_is_reassembled() {
    let body = "A".repeat(40) + &"B".repeat(30);
    let parts: Vec<String> = body
        .as_bytes()
        .chunks(FRAG_PAYLOAD)
        .map(|c| String::from_utf8(c.to_vec()).unwrap())
        .collect();
    let total = parts.len() as u16;
    let frames: Vec<Vec<f32>> = parts
        .iter()
        .enumerate()
        .map(|(i, s)| frame(s, 0, i as u16, total, 5, 0.5, &ultra()))
        .collect();
    let o = run(frames, 0, 0.01, None);
    assert_eq!(o.texts, vec![body]);
    assert_eq!(o.stats.detections, total as u64);
}

#[test]
fn a_live_receiver_follows_a_retune() {
    // Retuning must rebuild the matched filters, not leave them on the old spot.
    let mut tuned = ultra();
    tuned.base_freq = 16_000_000;
    let o = run(
        vec![frame("retuned link", 1, 0, 1, 1, 0.5, &tuned)],
        1,
        0.01,
        Some(16_000_000),
    );
    assert_eq!(o.texts, vec!["retuned link".to_string()]);
    assert!(logs(&o.events)
        .iter()
        .any(|(_, t)| t == "retuned -- matched filters rebuilt"));
}

#[test]
fn pure_noise_produces_no_phantom_messages() {
    let o = run(Vec::new(), 1, 0.01, None);
    assert!(o.texts.is_empty(), "invented {:?}", o.texts);
    assert_eq!(o.stats.rx_ok, 0);
}

#[test]
fn real_time_pacing_works_too() {
    // Blocks as small as a sound card hands them out, one at a time.
    let mut stream = vec![0.0f32; (RATE * 0.3) as usize];
    stream.extend(frame("realtime", 1, 0, 1, 1, 0.5, &ultra()));
    stream.resize(stream.len() + (RATE * 0.45) as usize, 0.0);
    noise(&mut stream, 0.01);
    let mut t = Transceiver::new(0x1111);
    let mut ear = Ear::new(&t);
    for block in stream.chunks(1024) {
        ear.feed(&t, block, false, false);
    }
    let (payload, _, _) = ear.heard.pop().unwrap();
    let (hdr, frag) = t.handle_frame(&payload).fragment.unwrap();
    assert_eq!(texts(&t.reassemble(&hdr, frag, 0)), vec!["realtime".to_string()]);
    assert!(ear.events.iter().any(|e| matches!(e, Event::Progress { pct, .. } if *pct > 90)));
}

#[test]
fn a_frame_is_reported_step_by_step() {
    let o = run(vec![frame("hi there", 0, 0, 1, 1, 0.5, &ultra())], 0, 0.01, None);
    let notes: Vec<String> = logs(&o.events).into_iter().map(|(_, t)| t).collect();
    assert_eq!(notes[0], "RX listening @ 48000 Hz (threshold 0.20)");
    assert!(notes[1].starts_with("preamble ULTRA score=0."), "{}", notes[1]);
    assert!(notes[1].ends_with(" at t=0.42s"), "{}", notes[1]);
    assert!(notes[2].starts_with("header ok: FAST on ULTRA 19B conf="), "{}", notes[2]);
    assert!(notes[2].ends_with(" (~4.2s)"), "{}", notes[2]);
    assert_eq!(notes[3], "frame ok (19B)");
}

// ---- two and three devices in a room -------------------------------------- //
struct Node {
    t: Transceiver,
    ear: Ear,
    events: Vec<Event>,
    ctrl: Vec<CtrlFrame>,
    sent: usize,
    swallow: usize,
    now: u64,
}

fn node(id: u16, profile_id: usize) -> Node {
    let mut t = Transceiver::new(id);
    let mut c = t.config();
    c.active_profile = profile_id;
    t.update_config(c);
    t.start_rx();
    let ear = Ear::new(&t);
    Node { t, ear, events: Vec::new(), ctrl: Vec::new(), sent: 0, swallow: 0, now: 0 }
}

/// `who` plays a frame; everyone else hears it and answers, one after the other.
fn play(room: &mut Vec<Node>, who: usize, bytes: &[u8], id: usize, band: &Band) {
    room[who].sent += 1;
    if room[who].swallow > 0 {
        room[who].swallow -= 1;
        return;
    }
    let mut pkt = packet(bytes, id, band);
    pkt.resize(pkt.len() + 16_384, 0.0);
    noise(&mut pkt, 0.004);
    let mut work: Vec<(usize, Dispatch, usize, Band)> = Vec::new();
    for (i, n) in room.iter_mut().enumerate() {
        if i == who {
            // Our own packet: muted while it plays, and what is left of it after.
            n.ear.feed(&n.t, &pkt, true, false);
            n.ear.feed(&n.t, &vec![0.0; 2048], false, true);
            continue;
        }
        n.ear.feed_all(&n.t, &pkt);
        n.now += 1_000_000_000;
        for (payload, pid, b) in n.ear.heard.drain(..) {
            work.push((i, n.t.handle_frame(&payload), pid, b));
        }
    }
    for (i, mut d, pid, b) in work {
        let notes = std::mem::take(&mut d.events);
        room[i].t.note(&notes);
        room[i].events.extend(notes);
        if let Some(c) = d.hand_over {
            room[i].ctrl.push(c);
        }
        if let Some(reply) = d.reply.clone() {
            play(room, i, &reply, pid, &b);
            let notes = d.replied(None);
            room[i].events.extend(notes);
        }
        if let Some((hdr, frag)) = d.fragment {
            let now = room[i].now;
            let notes = room[i].t.reassemble(&hdr, frag, now);
            room[i].t.note(&notes);
            room[i].events.extend(notes);
        }
    }
}

fn send_text(room: &mut Vec<Node>, who: usize, text: &str) -> Result<(), String> {
    let out = room[who].t.send_text(text, 50_000_000)?;
    let (id, band) = (out.profile_id, out.band);
    room[who].t.note(&out.events);
    room[who].events.extend(out.events);
    let mut transfer: Transfer = out.transfer;
    loop {
        let notes = match transfer.phase() {
            Phase::Done => return Ok(()),
            Phase::Failed => return Err(transfer.failure()),
            Phase::Send => {
                let bytes = transfer.frame();
                room[who].ctrl.clear();
                play(room, who, &bytes, id, &band);
                transfer.sent()
            }
            Phase::Await => match room[who].ctrl.pop() {
                Some(c) => transfer.on_ctrl(&c),
                None => transfer.on_timeout(),
            },
        };
        room[who].t.note(&notes);
        room[who].events.extend(notes);
    }
}

#[test]
fn a_message_crosses_the_room_and_is_acknowledged() {
    let mut room = vec![node(0xA1A1, 0), node(0xB2B2, 0)];
    send_text(&mut room, 0, "ping").expect("send failed");
    assert_eq!(texts(&room[1].events), vec!["ping".to_string()]);
    assert_eq!(room[0].t.peer_id(), 0xB2B2, "sender learned the peer id");
    assert_eq!(room[1].t.peer_id(), 0xA1A1, "receiver learned the sender id");
    let notes = logs(&room[0].events);
    assert!(
        notes.iter().any(|(_, t)| t.contains("acked by B2B2")),
        "sender never saw an ack: {notes:?}"
    );
    assert!(
        !notes.iter().any(|(l, _)| *l == Level::Error),
        "errors during the exchange: {notes:?}"
    );
}

#[test]
fn a_short_message_costs_exactly_two_packets_on_air() {
    // The whole point of folding the introduction into the first fragment: a
    // short word costs one packet each way, not a hello round trip first.
    let mut room = vec![node(0xA1A1, 0), node(0xB2B2, 0)];
    send_text(&mut room, 0, "hi").expect("send failed");
    assert_eq!(room[0].sent, 1, "sender packets");
    assert_eq!(room[1].sent, 1, "receiver packets");
}

#[test]
fn a_swallowed_ack_causes_a_resend_and_no_duplicate_delivery() {
    let mut room = vec![node(0xA1A1, 0), node(0xB2B2, 0)];
    // Eat exactly the first thing b transmits -- its ack.
    room[1].swallow = 1;
    send_text(&mut room, 0, "retry").expect("send failed");
    assert_eq!(room[1].swallow, 0, "the test never swallowed an ack");
    assert!(
        logs(&room[0].events).iter().any(|(_, t)| t.contains("unacked")),
        "sender did not notice the missing ack"
    );
    assert_eq!(
        texts(&room[1].events),
        vec!["retry".to_string()],
        "the resent fragment must be delivered exactly once"
    );
    assert!(
        logs(&room[1].events).iter().any(|(_, t)| t.contains("duplicate frag")),
        "receiver should have recognised the resend as a duplicate"
    );
}

#[test]
fn once_a_peer_is_known_the_other_devices_go_quiet() {
    // Three devices in one room. The FIRST message is broadcast, so every listener
    // answers it; once the sender has a peer, the bystander must neither
    // acknowledge nor deliver.
    let mut room = vec![node(0xA1A1, 0), node(0xB2B2, 0), node(0xC3C3, 0)];
    send_text(&mut room, 0, "first").expect("send failed");
    let peer = room[0].t.peer_id();
    assert_ne!(peer, BROADCAST, "a should have found a peer");
    let bystander = if peer == 0xB2B2 { 2 } else { 1 };
    let before = room[bystander].sent;
    room[bystander].events.clear();
    send_text(&mut room, 0, "second").expect("send failed");
    assert_eq!(
        room[bystander].sent, before,
        "the device that is not the peer must stay silent"
    );
    assert!(
        texts(&room[bystander].events).is_empty(),
        "the device that is not the peer must not deliver the message: {:?}",
        texts(&room[bystander].events)
    );
}

#[test]
fn explicit_discovery_finds_a_peer_without_sending_a_message() {
    let mut room = vec![node(0xA1A1, 0), node(0xB2B2, 0)];
    let d = room[0].t.discover(50_000_000).expect("discover failed");
    let (id, band) = (d.profile_id, d.band);
    let mut h = d.handshake;
    while h.phase() != Phase::Done {
        if h.phase() == Phase::Send {
            let bytes = h.frame();
            play(&mut room, 0, &bytes, id, &band);
            h.sent();
        } else {
            let notes = match room[0].ctrl.pop() {
                Some(c) => h.on_ctrl(&c),
                None => h.on_timeout(),
            };
            room[0].t.note(&notes);
        }
    }
    assert_eq!(h.peer(), 0xB2B2);
    assert_eq!(room[0].t.peer_id(), 0xB2B2);
    assert!(texts(&room[1].events).is_empty(), "discovery must not deliver a message");
}

#[test]
fn discovery_without_a_receiver_is_refused_rather_than_hanging() {
    let t = Transceiver::new(0xA1A1);
    assert_eq!(
        t.discover(1_000_000_000).err().unwrap(),
        "start RX first -- discovery must hear the reply"
    );
}

#[test]
fn our_own_packet_is_not_decoded() {
    let t = Transceiver::new(0xA1A1);
    let mut ear = Ear::new(&t);
    let pkt = packet(b"mine", 0, &ultra());
    for chunk in pkt.chunks(8192) {
        ear.feed(&t, chunk, true, false);
    }
    ear.feed(&t, &vec![0.0; 8192], false, true);
    ear.feed(&t, &vec![0.0; 16_384], false, false);
    assert!(ear.heard.is_empty());
    assert_eq!(ear.m.stats().detections, 0);
}

#[test]
fn what_is_on_the_air_parses_back() {
    let r = round_trip(&acoustic_modem::framing::encode_ack(1, 2, 3, 4), 0, audio());
    assert!(matches!(parse(&r.payload), Some(Frame::Ctrl(c)) if c.frag_idx == 4));
}

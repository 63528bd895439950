use acoustic_modem::band::{audio, ultra};
use acoustic_modem::diag::{
    loopback_frame, loopback_head, loopback_profile, loopback_tail, loopback_unrecorded,
    loopback_verdict, plan_probe, probe_report, probe_unrecorded, read_loopback, selftest,
    selftest_payload, tone_window, Heard, ToneLevel, ALIGN_SAMPLES, DECIBEL, MARKER_SAMPLES,
    PROBE_STEP, TONE_SAMPLES,
};
use acoustic_modem::packet::{build_frame_bits, decode_frame, DecodeResult, CONFIDENCE_ONE};
use acoustic_modem::profile::profile;

const T02: i32 = 0x3E4C_CCCD;
const T07: i32 = 0x3F33_3333;

/// A level from its double, which scales exactly.
fn decibels(db: f64) -> i128 {
    (db * DECIBEL as f64) as i128
}

fn decoded(payload: &[u8]) -> DecodeResult {
    let confidence = 25 * CONFIDENCE_ONE + CONFIDENCE_ONE / 4;
    decode_frame(&build_frame_bits(payload, 0), 0, confidence, payload.len())
}

fn broken() -> DecodeResult {
    decode_frame(&[], 0, 0, 5)
}

#[test]
fn the_selftest_compares_what_came_back() {
    let payload = selftest_payload();
    assert_eq!(payload.len(), 41);
    assert_eq!(&payload[..11], b"selftest \x00\x01");
    assert_eq!(payload[40], 31);
    let p = profile(0).unwrap();
    assert_eq!(selftest(&p, T07, &decoded(&payload)), (true, "  FAST     score=0.70 PASS".into()));
    assert_eq!(selftest(&p, 0, &broken()), (false, "  FAST     score=0.00 FAIL truncated frame".into()));
    assert_eq!(selftest(&p, T02, &decoded(b"other")), (false, "  FAST     score=0.20 FAIL ".into()));
}

#[test]
fn the_marker_is_the_audible_chirp() {
    assert_eq!(MARKER_SAMPLES, audio().chirp_samples());
    assert_eq!((TONE_SAMPLES, ALIGN_SAMPLES, PROBE_STEP), (14_400, 6_720, 18_240));
}

#[test]
fn a_probe_covers_the_tuned_band_once() {
    let plan = plan_probe(&ultra());
    let khz: Vec<i64> = plan.freqs.iter().map(|f| f / 1_000).collect();
    assert_eq!(
        khz,
        vec![
            1000, 3000, 4000, 6000, 10000, 14000, 16000, 17000, 17800, 18200, 18400, 18500, 18600,
            18800, 19000, 19100, 19400, 19600, 20000
        ]
    );
    assert_eq!(plan.tuned.len(), 14);
    assert_eq!(plan.tuned[..4], [18_200_000, 18_600_000, 19_000_000, 19_400_000]);
    assert_eq!(plan.tuned[12..], [17_800_000, 19_600_000]);
    // Tones less than a hertz apart are one.
    let mut b = ultra();
    b.base_freq += 500;
    assert!(plan_probe(&b).freqs.windows(2).all(|w| w[1] - w[0] >= 1_000));
}

#[test]
fn tones_are_found_behind_the_marker() {
    assert_eq!(tone_window(100, 0, 50_000), Some((6_820, 21_220)));
    assert_eq!(tone_window(100, 1, 30_000), Some((25_060, 30_000)));
    assert_eq!(tone_window(100, 2, 43_300), None);
    assert_eq!(tone_window(usize::MAX, usize::MAX, usize::MAX), None);
}

#[test]
fn a_probe_is_reported() {
    let level = |khz: i64, db: f64| ToneLevel { freq: khz * 1_000_000, level: decibels(db) };
    let levels = [level(1, -20.0), level(3, -10.5), level(18, -41.0), level(20, -90.0)];
    let out = probe_report(&levels, T07, &ultra(), &[18_000_400, 18_700_000]);
    assert_eq!(
        out[0],
        "(alignment score 0.70; bars are relative to the strongest tone, -10.5 dB; '<' marks the tuned band)"
    );
    assert_eq!(out[1], format!("    1000 Hz    -9.5  {}", "#".repeat(34)));
    assert_eq!(out[2], format!("    3000 Hz     0.0  {}", "#".repeat(44)));
    assert_eq!(out[3], format!("   18000 Hz   -30.5  {} <", "#".repeat(13)));
    assert_eq!(out[4], "   20000 Hz   -79.5  ");
    assert_eq!(out[5], "");
    assert_eq!(
        out[6],
        "VERDICT for ULTRA @ 18.20 kHz: weakest tone is 30 dB below the audible reference."
    );
    assert_eq!(out[7], "         Too weak \u{2014} this hardware will not carry that tuning.");
    assert!(out[8].starts_with("NOTE: Windows quietens playback"));
    assert_eq!(out.len(), 10);
}

#[test]
fn a_strong_band_has_no_complaint() {
    let levels = [
        ToneLevel { freq: 1_000_000, level: decibels(-20.0) },
        ToneLevel { freq: 18_200_000, level: decibels(-50.0) },
    ];
    let out = probe_report(&levels, T07, &ultra(), &[18_200_000]);
    assert!(!out.iter().any(|l| l.contains("Too weak")));
    // Without a reference tone there is no verdict.
    let out = probe_report(&levels[1..], T07, &ultra(), &[18_200_000]);
    assert!(!out.iter().any(|l| l.contains("VERDICT")));
    assert_eq!(
        probe_report(&[], 0, &ultra(), &[]),
        vec!["probe failed: recording too short to align"]
    );
}

#[test]
fn a_loopback_reads_what_it_played() {
    let frame = loopback_frame("h\u{e9}llo");
    assert_eq!(frame[..11], [1, 0, 0, 0, 0, 0, 1, 0, 0, 0, 1]);
    assert_eq!(read_loopback(&frame), "h\u{e9}llo");
    assert_eq!(read_loopback(&[0x33]), "<unparseable frame>");
}

#[test]
fn a_loopback_says_what_it_heard() {
    let h = Heard { rms: decibels(-34.1), score: T07, noise: 0x3CA3_D70A, threshold: T02 };
    let p = profile(2).unwrap();
    let (heard, out) = loopback_head(&h, &p);
    assert!(heard);
    assert_eq!(
        out,
        vec![
            "recorded rms=-34.1 dBFS (ROBUST profile)",
            "best preamble score=0.700 (need >= 0.20), noise median=0.020"
        ]
    );
    let (heard, out) = loopback_head(&Heard { score: T02 - 1, ..h }, &p);
    assert!(!heard);
    assert_eq!(out[2], "FAIL: preamble not detected \u{2014} the mic never heard the chirp.");
    assert_eq!(out[3], "      Raise the volume, or run `probe` to check the band.");
}

#[test]
fn a_loopback_says_what_it_decoded() {
    let r = decoded(&loopback_frame("say \"hi\""));
    assert_eq!(loopback_verdict(&r), vec!["PASS: decoded \"say \\\"hi\\\"\" (conf=25)"]);
    assert_eq!(loopback_tail(&r, "Q"), vec!["PASS: decoded Q (conf=25)"]);
    let out = loopback_verdict(&broken());
    assert_eq!(out[0], "FAIL at decode: truncated frame");
    assert!(out[1].ends_with("try a slower profile or move the devices closer."));
}

#[test]
fn levels_are_compared_as_the_doubles_they_are() {
    let mut seed = 0x9E3779B97F4A7C15u64;
    let mut next = || {
        seed = seed.wrapping_mul(6364136223846793005).wrapping_add(1);
        -((seed >> 11) as f64 / (1u64 << 53) as f64)
    };
    let mut draws: Vec<(f64, f64)> = (0..500).map(|_| (120.0 * next(), 120.0 * next())).collect();
    // Far below any digit shown, and on either side of the edge.
    draws.push((-10.0, -10.0 - 1e-15));
    draws.push((-10.0, -40.0004));
    draws.push((-10.0, -39.9996));
    draws.push((-0.05, -0.1));
    for (a, b) in draws {
        let levels = [
            ToneLevel { freq: 1_000_000, level: decibels(a) },
            ToneLevel { freq: 18_200_000, level: decibels(b) },
        ];
        let out = probe_report(&levels, 0, &ultra(), &[18_200_000]);
        let top = a.max(b);
        assert!(out[0].contains(&format!("strongest tone, {top:.1} dB;")), "{a} {b}: {out:?}");
        for (line, (db, mark)) in out[1..3].iter().zip([(a, ""), (b, " <")]) {
            let bars = (44.0 + (db - top)).clamp(0.0, 44.0) as usize;
            let want = format!(" Hz  {:6.1}  {}{mark}", db - top, "#".repeat(bars));
            assert!(line.ends_with(&want), "{a} {b}: {line:?}");
        }
        let drop = a - b;
        assert!(out[4].contains(&format!("weakest tone is {drop:.0} dB below")), "{a} {b}: {out:?}");
        assert_eq!(out.iter().any(|l| l.contains("Too weak")), drop > 30.0, "{a} {b}");
    }
}

#[test]
fn a_confidence_is_shown_to_the_nearest() {
    for c in [0.0f64, 0.5, 1.5, 2.5, 3.4996, 3.5, 3.5004, 1234.49999] {
        let mut r = decoded(b"x");
        r.confidence = (c * CONFIDENCE_ONE as f64) as u128;
        assert_eq!(loopback_tail(&r, "Q"), vec![format!("PASS: decoded Q (conf={c:.0})")]);
    }
}

#[test]
fn recordings_that_are_too_short_end_early() {
    assert_eq!(probe_unrecorded(ALIGN_SAMPLES - 1).unwrap(), "probe failed: nothing recorded");
    assert_eq!(probe_unrecorded(ALIGN_SAMPLES), None);
    assert_eq!(loopback_unrecorded(2_879, &ultra()).unwrap(), "loopback: recording too short");
    assert_eq!(loopback_unrecorded(2_880, &ultra()), None);
    assert_eq!(loopback_profile(2).unwrap(), profile(2).unwrap());
    assert_eq!(loopback_profile(3).unwrap_err(), "unknown profile");
}

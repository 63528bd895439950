use acoustic_modem::band::{audio, ultra};
use acoustic_modem::chirp::PreambleDetector;
use acoustic_modem::packet::{build_frame_bits, CONFIDENCE_ONE};
use acoustic_modem::receiver::{
    max_frame_samples, worth_filtering, Intake, NextStep, RxMachine, MAX_PAYLOAD,
};
use acoustic_modem::trx::{Event, RxState, Stats};
use acoustic_modem::DETECT_THRESHOLD;

const T06: i32 = 0x3F19_999A;

fn show(e: &Event) -> String {
    match e {
        Event::Log(l, t) => format!("{l:?}: {t}"),
        Event::Progress { pct, note } => format!("{pct}% {note}"),
        other => format!("{other:?}"),
    }
}

fn machine() -> RxMachine {
    RxMachine::new(ultra(), 0, DETECT_THRESHOLD, Stats::default()).0
}

fn hear(m: &mut RxMachine, n: usize) -> usize {
    match m.intake(n, 0, ultra(), false, false) {
        (Intake::Admitted { drop }, notes) => {
            assert!(notes.is_empty());
            drop
        }
        other => panic!("{other:?}"),
    }
}

/// One pass of one detector that scored `at` above the rest.
fn detect(m: &mut RxMachine, n: usize, at: usize, rejected: usize) -> Vec<String> {
    let det = PreambleDetector::with_default_threshold(ultra());
    let mut scan = m.begin_search().unwrap();
    let mut sc = vec![0x3D00_0000; det.score_count(n - scan.off)];
    sc[at - scan.off] = T06;
    let mut trial = det.begin_peaks(&sc);
    assert_eq!(trial.want(), Some(at - scan.off));
    trial.tell(rejected == 0);
    assert_eq!(trial.want(), None);
    m.examine(&mut scan, &det, &sc, &trial);
    m.end_search(&scan, 1).iter().map(show).collect()
}

#[test]
fn the_longest_frame_is_a_robust_one() {
    assert_eq!(MAX_PAYLOAD, 59);
    assert_eq!(max_frame_samples(), 503 * 2_880 + 2_160);
}

#[test]
fn filtering_waits_for_enough_audio() {
    assert!(!worth_filtering(2_880 + 4_095, 2_880));
    assert!(worth_filtering(2_880 + 4_096, 2_880));
    assert!(!worth_filtering(0, usize::MAX));
}

#[test]
fn a_receiver_says_that_it_listens() {
    let (m, e) = RxMachine::new(audio(), 3, 0x3DF5_C28F, Stats::default());
    assert_eq!(show(&e), "Info: RX listening @ 48000 Hz (threshold 0.12)");
    assert_eq!((m.state(), m.stats().state), (RxState::Search, RxState::Search));
    assert_eq!((m.held(), m.due(), m.band().name), (0, false, "AUDIO"));
}

#[test]
fn our_own_packets_are_not_heard() {
    let mut m = machine();
    hear(&mut m, 10_000);
    let (i, notes) = m.intake(5_000, 0, ultra(), true, false);
    assert_eq!((i, notes.len()), (Intake::Muted { rearmed: false }, 0));
    assert_eq!((m.held(), m.stats().state), (0, RxState::Transmitting));
    let (i, _) = m.intake(5_000, 0, ultra(), false, true);
    assert_eq!(i, Intake::Muted { rearmed: true });
    assert_eq!((m.held(), m.stats().state), (0, RxState::Search));
}

#[test]
fn a_retune_starts_over() {
    let mut m = machine();
    hear(&mut m, 40_000);
    detect(&mut m, 40_000, 10_000, 0);
    assert_eq!(m.state(), RxState::Header);
    let (i, notes) = m.intake(100, 1, audio(), false, false);
    assert_eq!(i, Intake::Retuned);
    assert_eq!(show(&notes[0]), "Info: retuned -- matched filters rebuilt");
    assert_eq!((m.state(), m.held(), m.band().name), (RxState::Search, 0, "AUDIO"));
    // It is noticed before anything else, and once.
    assert_eq!(m.intake(100, 1, audio(), true, false).0, Intake::Muted { rearmed: false });
}

#[test]
fn memory_is_bounded_and_nothing_wanted_is_dropped() {
    let mut m = machine();
    hear(&mut m, 40_000);
    // Nothing was searched yet, so nothing goes.
    assert_eq!(hear(&mut m, 1_000), 0);
    let det = PreambleDetector::with_default_threshold(ultra());
    let mut scan = m.begin_search().unwrap();
    let sc = vec![0; det.score_count(41_000)];
    m.examine(&mut scan, &det, &sc, &det.begin_peaks(&sc));
    assert!(m.end_search(&scan, 1).is_empty());
    // What was searched goes, but for the run-up to what was not.
    assert_eq!(hear(&mut m, 1_000), 38_121 - 2_400);
    assert_eq!(m.held(), 42_000 - 38_121 + 2_400);
    let hold = max_frame_samples() + 3 * 48_000;
    hear(&mut m, 3 * hold);
    assert_eq!(m.held(), hold);
}

#[test]
fn a_chirp_is_found_once() {
    let mut m = machine();
    hear(&mut m, 40_000);
    let notes = detect(&mut m, 40_000, 9_600, 0);
    assert_eq!(notes, vec!["Info: preamble ULTRA score=0.60 at t=0.20s"]);
    let s = m.stats();
    assert_eq!((s.detections, s.rejected), (1, 0));
    assert_eq!((s.peak_score, s.peak_hold, s.noise_score), (T06, T06, 0x3D00_0000));
    assert_eq!(m.state(), RxState::Header);
    // The header of the slowest profile and the latest offset: not there yet.
    let need = 9_600 + 3_840 + 180 + 41 * 2_880 + 2_160;
    assert!(!m.due());
    hear(&mut m, need - 40_000 - 1);
    assert!(!m.due());
    hear(&mut m, 1);
    assert!(m.due());
}

#[test]
fn a_peak_without_a_quiet_run_up_is_rejected() {
    let mut m = machine();
    hear(&mut m, 40_000);
    assert!(detect(&mut m, 40_000, 9_600, 1).is_empty());
    assert_eq!((m.stats().rejected, m.stats().detections), (1, 0));
    assert_eq!(m.state(), RxState::Search);
}

#[test]
fn the_stronger_of_two_bands_is_followed() {
    let mut m = machine();
    hear(&mut m, 40_000);
    let mut scan = m.begin_search().unwrap();
    for (band, score) in [(ultra(), 0x3F00_0000), (audio(), T06), (ultra(), T06)] {
        let det = PreambleDetector::with_default_threshold(band);
        let mut sc = vec![0; det.score_count(40_000)];
        sc[50] = score;
        let mut trial = det.begin_peaks(&sc);
        trial.tell(true);
        m.examine(&mut scan, &det, &sc, &trial);
    }
    m.end_search(&scan, 1);
    assert_eq!(m.band().name, "AUDIO");
}

/// A machine with a header's worth of audio behind a chirp at sample 9600.
fn at_header() -> RxMachine {
    let mut m = machine();
    hear(&mut m, 40_000);
    detect(&mut m, 40_000, 9_600, 0);
    hear(&mut m, 200_000);
    assert!(m.due());
    m
}

#[test]
fn our_own_profile_is_tried_first() {
    let mut m = at_header();
    let mut trial = m.begin_header();
    let mut ids = Vec::new();
    let mut first = None;
    while let Some(p) = trial.want() {
        first = first.or(Some(p.start));
        ids.push(p.profile_id);
        trial.tell(&[], 0);
    }
    assert_eq!(ids.len(), 33);
    assert_eq!((ids[0], ids[11], ids[22]), (1, 0, 2));
    let notes = m.end_header(&trial);
    assert_eq!(
        show(&notes[0]),
        "Warn: preamble found but header would not decode (weak signal / wrong profile)"
    );
    assert_eq!((m.state(), m.stats().rx_bad), (RxState::Search, 1));
}

#[test]
fn a_header_counts_only_in_the_profile_it_names() {
    let mut m = at_header();
    let bits = build_frame_bits(b"hello", 0);
    let mut trial = m.begin_header();
    while let Some(p) = trial.want() {
        // NORMAL is tried first, and reads a header that says FAST.
        trial.tell(&bits[..84], 12 * CONFIDENCE_ONE + CONFIDENCE_ONE / 3);
        if p.profile_id == 0 {
            break;
        }
    }
    assert!(trial.want().is_none());
    let notes = m.end_header(&trial);
    assert_eq!(show(&notes[0]), "Info: header ok: FAST on ULTRA 5B conf=12 (~2.5s)");
    assert_eq!(m.state(), RxState::Body);
}

#[test]
fn a_frame_that_has_not_arrived_shows_its_progress() {
    let mut m = at_header();
    let bits = build_frame_bits(&[7; 59], 1);
    let mut trial = m.begin_header();
    trial.tell(&bits[..84], 0);
    m.end_header(&trial);
    assert!(!m.due());
    // 240000 samples heard, the frame from 13440 on, 504 NORMAL symbols and the
    // latest offset.
    let pct = 100 * (240_000 - 13_440) / (180 + 503 * 1_584 + 1_200);
    assert_eq!(show(&m.progress()), format!("{pct}% RX frame"));
    assert_eq!(m.stats().state, RxState::Body);
}

#[test]
fn neighbouring_offsets_are_tried_before_a_frame_is_dropped() {
    let bits = build_frame_bits(b"hello", 1);
    for good in [0usize, 3, 99] {
        let mut m = at_header();
        let mut trial = m.begin_header();
        trial.tell(&bits[..84], 0);
        m.end_header(&trial);
        assert!(m.due());
        let mut body = m.begin_body();
        assert_eq!((body.profile_id(), body.length()), (1, 5));
        let mut starts = Vec::new();
        while let Some(at) = body.want() {
            if starts.len() == good {
                body.tell(&bits, 0);
            } else {
                body.tell(&vec![0; bits.len()], 0);
            }
            starts.push(at);
        }
        let (note, payload) = m.end_body(body);
        let want = match good {
            0 => "Info: frame ok (5B)",
            3 => "Info: frame ok (5B) after 4 sync tries",
            _ => "Warn: frame dropped: frame CRC fail (11 sync offsets tried)",
        };
        assert_eq!(show(&note), want);
        assert_eq!(payload.is_some(), good < 11);
        let base = starts[0];
        let offsets: Vec<isize> = starts.iter().map(|s| s - base).collect();
        let all = [0, 36, -36, 72, -72, 108, -108, 144, -144, 180, -180];
        assert_eq!(offsets, all[..offsets.len()]);
        assert_eq!((m.stats().rx_ok, m.stats().rx_bad), if good < 11 { (1, 0) } else { (0, 1) });
        assert_eq!(m.state(), RxState::Search);
    }
}

#[test]
fn every_frame_answers_a_detection() {
    let bits = build_frame_bits(b"hello", 1);
    for (header, body) in [(false, false), (true, false), (true, true)] {
        let mut m = at_header();
        assert_eq!(m.stats().detections, 1);
        let mut trial = m.begin_header();
        while trial.want().is_some() {
            trial.tell(if header { &bits[..84] } else { &[] }, 0);
        }
        m.end_header(&trial);
        if m.state() == RxState::Body {
            let mut t = m.begin_body();
            while t.want().is_some() {
                t.tell(if body { &bits } else { &[] }, 0);
            }
            m.end_body(t);
        }
        let s = m.stats();
        assert_eq!((s.detections, s.rx_ok + s.rx_bad, s.rx_ok), (1, 1, body as u64));
    }
    // A frame that is given up half way counts as neither.
    let mut m = machine();
    hear(&mut m, 40_000);
    detect(&mut m, 40_000, 9_600, 0);
    m.intake(10, 0, ultra(), false, true);
    assert_eq!((m.stats().detections, m.stats().rx_ok + m.stats().rx_bad), (1, 0));
    assert_eq!(m.state(), RxState::Search);
}

#[test]
fn every_block_is_owed_its_work() {
    let mut m = machine();
    assert_eq!(m.next_step(), NextStep::Rest);
    // A pass for each block, and only one.
    hear(&mut m, 10_000);
    assert_eq!(m.next_step(), NextStep::Search);
    let scan = m.begin_search().unwrap();
    assert_eq!(m.next_step(), NextStep::Search);
    m.end_search(&scan, 1);
    assert_eq!(m.next_step(), NextStep::Rest);
    // With a preamble, the header is next as soon as it has arrived.
    hear(&mut m, 30_000);
    detect(&mut m, 40_000, 9_600, 0);
    assert_eq!(m.next_step(), NextStep::Rest);
    hear(&mut m, 10_000);
    assert_eq!(m.next_step(), NextStep::Rest);
    hear(&mut m, 150_000);
    assert_eq!(m.next_step(), NextStep::Header);
    // Then word of the frame, until it is there.
    let bits = build_frame_bits(&[7; 59], 1);
    let mut trial = m.begin_header();
    trial.tell(&bits[..84], 0);
    m.end_header(&trial);
    assert_eq!(m.next_step(), NextStep::Progress);
    m.progress();
    assert_eq!(m.next_step(), NextStep::Rest);
    hear(&mut m, 700_000);
    assert_eq!(m.next_step(), NextStep::Body);
    let mut body = m.begin_body();
    body.tell(&bits, 0);
    m.end_body(body);
    // The audio behind a frame is searched with the next block.
    assert_eq!((m.state(), m.next_step()), (RxState::Search, NextStep::Rest));
    hear(&mut m, 10);
    assert_eq!(m.next_step(), NextStep::Search);
    // What is not heard is owed nothing.
    m.intake(10, 0, ultra(), true, false);
    assert_eq!(m.next_step(), NextStep::Rest);
}

#[test]
fn a_header_that_would_not_decode_ends_the_blocks_work() {
    let mut m = at_header();
    assert_eq!(m.next_step(), NextStep::Header);
    let mut trial = m.begin_header();
    while trial.want().is_some() {
        trial.tell(&[], 0);
    }
    m.end_header(&trial);
    assert_eq!((m.state(), m.next_step()), (RxState::Search, NextStep::Rest));
}

use acoustic_modem::band::ultra;
use acoustic_modem::chirp::{
    higher_score, median, push_score, push_score_digits, score_above, score_at_least, strongest,
    PreambleDetector,
};
use acoustic_modem::DETECT_THRESHOLD;

/// The rank of a score among all scores.
fn rank(v: f32) -> i32 {
    let b = v.to_bits() as i32;
    b ^ (((b >> 31) as u32) >> 1) as i32
}

fn shown(v: f32) -> String {
    let mut s = String::new();
    push_score(&mut s, rank(v));
    s
}

#[test]
fn ranks_order_scores() {
    let rising = [-1.0f32, -0.5, -0.0, 0.0, 1e-9, 0.1999, 0.2, 0.7, 1.0];
    for (i, &a) in rising.iter().enumerate() {
        for (j, &b) in rising.iter().enumerate() {
            assert_eq!(score_at_least(rank(a), rank(b)), a >= b, "{a} {b}");
            assert_eq!(score_above(rank(a), rank(b)), a > b, "{a} {b}");
            assert_eq!(rank(a) < rank(b), i < j);
        }
    }
    assert_eq!(higher_score(rank(0.3), rank(0.2)), rank(0.3));
    assert_eq!(higher_score(rank(0.2), rank(0.3)), rank(0.3));
}

#[test]
fn the_default_threshold_is_a_fifth() {
    assert_eq!(DETECT_THRESHOLD, rank(0.2));
    let det = PreambleDetector::with_default_threshold(ultra());
    assert_eq!(det.threshold, rank(0.2));
    assert_eq!(det.m(), 2_880);
}

#[test]
fn scores_are_shown_as_decimals() {
    for v in [0.0f32, 0.2, 0.125, 0.135, 0.005, 0.994, 0.9951, 0.71, 1.0, 1e-20, 12.345, -0.25] {
        assert_eq!(shown(v), format!("{v:.2}"));
        let mut s = "x".to_string();
        push_score_digits(&mut s, rank(v), 3);
        assert_eq!(s, format!("x{v:.3}"));
    }
}

#[test]
fn the_strongest_is_the_last_of_equals() {
    assert_eq!(strongest(&[]), None);
    assert_eq!(strongest(&[rank(0.1), rank(0.4), rank(0.4), rank(0.2)]), Some(2));
}

#[test]
fn the_median_is_the_upper_middle() {
    assert_eq!(median(&[]), 0);
    assert_eq!(median(&[rank(0.3), rank(0.1), rank(0.2)]), rank(0.2));
    assert_eq!(median(&[rank(0.3), rank(0.1), rank(0.2), rank(0.4)]), rank(0.3));
}

#[test]
fn one_hump_is_one_event() {
    let det = PreambleDetector::with_default_threshold(ultra());
    let mut sc = vec![0; 20_000];
    sc[100] = rank(0.3);
    sc[2_000] = rank(0.5);
    sc[4_880] = rank(0.4); // one template length behind: still the same event
    sc[8_000] = rank(0.6);
    sc[15_000] = rank(0.1999);
    assert_eq!(det.peaks(&sc), vec![8_000, 2_000]);
    sc[4_880] = 0;
    sc[4_881] = rank(0.4);
    assert_eq!(det.peaks(&sc), vec![8_000, 2_000, 4_881]);
    // Equally strong events come in the order of time.
    sc[4_881] = rank(0.6);
    assert_eq!(det.peaks(&sc), vec![4_881, 8_000, 2_000]);
    assert!(det.peaks(&[]).is_empty());
}

#[test]
fn windows_are_counted_by_where_they_start() {
    let det = PreambleDetector::new(ultra(), 0);
    assert_eq!(det.score_count(2_879), 0);
    assert_eq!(det.score_count(2_880), 1);
    assert_eq!(det.score_count(10_000), 7_121);
}

#[test]
fn the_run_up_is_judged_where_there_is_enough_history() {
    let det = PreambleDetector::new(ultra(), 0);
    assert_eq!(det.lead_in_window(20_000, 2_399), None);
    assert_eq!(det.lead_in_window(20_000, 2_400), Some((0, 5_280)));
    assert_eq!(det.lead_in_window(20_000, 17_120), Some((14_720, 20_000)));
    assert_eq!(det.lead_in_window(20_000, 17_121), None);
}

#[test]
fn the_first_quiet_peak_is_taken() {
    let det = PreambleDetector::with_default_threshold(ultra());
    let mut sc = vec![0; 30_000];
    for (at, v) in [(1_000, 0.3), (6_000, 0.5), (12_000, 0.4), (18_000, 0.6)] {
        sc[at] = rank(v);
    }
    let mut trial = det.begin_peaks(&sc);
    let mut asked = Vec::new();
    while let Some(j) = trial.want() {
        asked.push(j);
        trial.tell(j == 12_000);
    }
    assert_eq!(asked, vec![18_000, 6_000, 12_000]);
    assert_eq!((trial.found(), trial.rejected()), (Some(12_000), 2));

    let mut trial = det.begin_peaks(&sc);
    while trial.want().is_some() {
        trial.tell(false);
    }
    assert_eq!((trial.found(), trial.rejected()), (None, 4));
    assert_eq!(det.begin_peaks(&[]).want(), None);
}

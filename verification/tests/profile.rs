use acoustic_modem::profile::{
    max_tone_spread, profile, profiles_preferring, Profile, DEFAULT_PROFILE, PROFILE_COUNT,
};

fn profiles() -> Vec<Profile> {
    (0..PROFILE_COUNT).map(|id| profile(id).unwrap()).collect()
}

#[test]
fn timing_matches_the_reference_implementation() {
    let profiles = profiles();
    assert_eq!(profiles[0].symbol_samples(), 720);
    assert_eq!(profiles[0].guard_samples(), 240);
    assert_eq!(profiles[1].step_samples(), 1200 + 384);
    assert_eq!(profiles[2].symbol_samples(), 2160);
    assert_eq!(profiles[0].n_tones(), 4);
}

#[test]
fn bitrates_are_the_documented_ones() {
    let r: Vec<i64> = profiles()
        .iter()
        .map(|p| (p.bitrate() as f64 / 1000.0).round() as i64)
        .collect();
    assert_eq!(r, vec![100, 61, 33]);
}

#[test]
fn bitrates_are_exact_to_a_thousandth() {
    let r: Vec<u64> = profiles().iter().map(|p| p.bitrate()).collect();
    assert_eq!(r, vec![100_000, 60_606, 33_333]);
}

#[test]
fn preference_order_puts_our_own_profile_first() {
    assert_eq!(profiles_preferring(2), vec![2, 0, 1]);
    assert_eq!(profiles_preferring(0), vec![0, 1, 2]);
}

#[test]
fn an_unknown_preference_moves_nothing() {
    assert_eq!(profiles_preferring(1), vec![1, 0, 2]);
    assert_eq!(profiles_preferring(3), vec![0, 1, 2]);
    assert_eq!(profiles_preferring(usize::MAX), vec![0, 1, 2]);
}

#[test]
fn the_table_has_three_profiles() {
    let names: Vec<&str> = profiles().iter().map(|p| p.name).collect();
    assert_eq!(names, vec!["FAST", "NORMAL", "ROBUST"]);
    assert!(profile(3).is_none());
    assert_eq!(profile(DEFAULT_PROFILE).unwrap().name, "NORMAL");
}

#[test]
fn tone_spreads_are_the_documented_ones() {
    let r: Vec<u64> = profiles().iter().map(|p| p.tone_spread()).collect();
    assert_eq!(r, vec![1_200_000, 600_000, 900_000]);
    assert_eq!(max_tone_spread(), 1_200_000);
}

#[test]
fn durations_are_truncated_to_samples() {
    let p = Profile {
        name: "ODD",
        spacing: 1,
        bits_per_symbol: 3,
        symbol_ms: 999,
        guard_ms: 20,
    };
    assert_eq!(p.symbol_samples(), 47);
    assert_eq!(p.guard_samples(), 0);
    assert_eq!(p.n_tones(), 8);
}

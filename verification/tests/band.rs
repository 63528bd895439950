use acoustic_modem::band::{
    audio, band_plan, check_band_freq, tone_freqs, ultra, unknown_band, BandSet,
};
use acoustic_modem::profile::profile;

#[test]
fn chirp_geometry_matches_the_reference() {
    assert_eq!(ultra().chirp_f0(), 17_800_000);
    assert_eq!(ultra().chirp_f1(), 19_600_000);
    assert_eq!(ultra().chirp_samples(), 2880);
    assert!(!ultra().audible());
    assert!(audio().audible());
}

#[test]
fn retuning_moves_the_chirp_and_bumps_the_revision() {
    let mut set = BandSet::default();
    assert_eq!(set.revision(), 0);
    let b = set.set_base_freq("ULTRA", 19_000_000).unwrap();
    assert_eq!(b.base_freq, 19_000_000);
    assert_eq!(b.chirp_f0(), 18_600_000);
    assert_eq!(b.chirp_f1(), 20_400_000);
    assert_eq!(set.revision(), 1);
    assert_eq!(set.expect("ULTRA").base_freq, 19_000_000);
    // The other band is untouched.
    assert_eq!(set.expect("AUDIO").base_freq, 3_000_000);
}

#[test]
fn out_of_range_frequencies_are_refused() {
    assert!(check_band_freq(100_000).is_err(), "near DC");
    assert!(check_band_freq(23_000_000).is_err(), "above Nyquist headroom");
    assert!(check_band_freq(-5_000).is_err());
    assert!(check_band_freq(0).is_err());
    assert!(check_band_freq(12_000_000).is_ok(), "a sane midband frequency");
    assert!(check_band_freq(20_000_000).is_ok(), "well inside the permitted range");
}

#[test]
fn refusals_say_why() {
    assert_eq!(
        check_band_freq(0).unwrap_err(),
        "frequency must be a positive number"
    );
    assert_eq!(
        check_band_freq(100_000).unwrap_err(),
        "too low: the chirp would start at -300 Hz, below the 300 Hz floor"
    );
    assert_eq!(
        check_band_freq(399_900).unwrap_err(),
        "too low: the chirp would start at -0 Hz, below the 300 Hz floor"
    );
    assert_eq!(
        check_band_freq(699_999).unwrap_err(),
        "too low: the chirp would start at 300 Hz, below the 300 Hz floor"
    );
    assert!(check_band_freq(700_000).is_ok());
    assert!(check_band_freq(20_200_000).is_ok());
    assert_eq!(
        check_band_freq(20_200_001).unwrap_err(),
        "too high: tones/chirp would reach 21600 Hz, above the 21600 Hz ceiling (Nyquist is 24000 Hz)"
    );
    assert_eq!(
        check_band_freq(23_000_000).unwrap_err(),
        "too high: tones/chirp would reach 24400 Hz, above the 21600 Hz ceiling (Nyquist is 24000 Hz)"
    );
    assert!(check_band_freq(i64::MAX).is_err());
}

#[test]
fn co_tuned_bands_collapse_to_one_detector() {
    let mut set = BandSet::default();
    assert_eq!(set.distinct_chirps().len(), 2);
    set.set_base_freq("AUDIO", ultra().base_freq as i64).unwrap();
    // Same base, but different lead/span, so still distinct chirps.
    assert_eq!(set.distinct_chirps().len(), 2);
}

#[test]
fn a_band_tuned_low_reports_as_audible() {
    let mut set = BandSet::default();
    let b = set.set_base_freq("ULTRA", 4_000_000).unwrap();
    assert!(b.audible());
}

#[test]
fn a_refused_retune_changes_nothing() {
    let mut set = BandSet::default();
    assert!(set.set_base_freq("ULTRA", 100_000).is_err());
    assert_eq!(
        set.set_base_freq("RADIO", 12_000_000).unwrap_err(),
        "unknown band \"RADIO\""
    );
    assert_eq!(
        set.set_base_freq("a\"b\n", 12_000_000).unwrap_err(),
        "unknown band \"a\\\"b\\n\""
    );
    // The frequency is judged before the name.
    assert_eq!(
        set.set_base_freq("RADIO", -1).unwrap_err(),
        "frequency must be a positive number"
    );
    assert_eq!(set.revision(), 0);
    assert_eq!(set.all().to_vec(), vec![ultra(), audio()]);
    assert_eq!(unknown_band("'x'"), "unknown band 'x'");
}

#[test]
fn bands_are_found_by_name() {
    let set = BandSet::default();
    assert_eq!(set.get("AUDIO"), Some(audio()));
    assert_eq!(set.get("audio"), None);
    assert_eq!(set.expect("ULTRA"), ultra());
}

#[test]
fn signatures_are_thousandths() {
    assert_eq!(ultra().chirp_signature(), (17_800_000, 19_600_000, 60_000));
    assert_eq!(audio().chirp_signature(), (2_800_000, 5_400_000, 60_000));
}

#[test]
fn tones_land_where_the_band_says() {
    assert_eq!(
        tone_freqs(&profile(0).unwrap(), &ultra()),
        vec![18_200_000, 18_600_000, 19_000_000, 19_400_000]
    );
}

#[test]
fn a_plan_describes_the_band_and_every_profile() {
    assert_eq!(
        band_plan(&ultra(), None),
        vec![
            "band ULTRA: base 18.200 kHz, chirp 17.800-19.600 kHz (inaudible to most people)",
            "  profile 0 FAST    4-FSK  tones 18.200, 18.600, 19.000, 19.400 kHz",
            "  profile 1 NORMAL  4-FSK  tones 18.200, 18.400, 18.600, 18.800 kHz",
            "  profile 2 ROBUST  4-FSK  tones 18.200, 18.500, 18.800, 19.100 kHz",
        ]
    );
    assert_eq!(
        band_plan(&audio(), Some(1)),
        vec![
            "band AUDIO: base 3.000 kHz, chirp 2.800-5.400 kHz (AUDIBLE)",
            "  profile 1 NORMAL  4-FSK  tones 3.000, 3.200, 3.400, 3.600 kHz",
        ]
    );
    assert_eq!(band_plan(&audio(), Some(9)).len(), 1);
}

#[test]
fn an_accepted_frequency_is_legal_in_every_band() {
    let mut set = BandSet::default();
    let u = set.set_base_freq("ULTRA", 20_200_000).unwrap();
    assert_eq!(u.chirp_f1(), 21_600_000);
    let a = set.set_base_freq("AUDIO", 20_200_000).unwrap();
    assert_eq!(a.chirp_f1(), 22_600_000);
    let u = set.set_base_freq("ULTRA", 700_000).unwrap();
    assert_eq!(u.chirp_f0(), 300_000);
    for id in 0..3 {
        let top = tone_freqs(&profile(id).unwrap(), &a).pop().unwrap();
        assert!(top <= 21_600_000);
    }
}

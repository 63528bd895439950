use acoustic_modem::band::ultra;
use acoustic_modem::cli::{parse_opts, report_decoded, written, CliError, Opts};
use acoustic_modem::packet::{build_frame_bits, decode_frame, CONFIDENCE_ONE};
use acoustic_modem::profile::profile;

fn opts(args: &[&str]) -> Result<Opts, CliError> {
    let args: Vec<String> = args.iter().map(|s| s.to_string()).collect();
    let hz: Vec<Option<i64>> = args
        .iter()
        .map(|s| s.parse::<f64>().ok().map(|khz| (khz * 1_000_000.0).round() as i64))
        .collect();
    parse_opts(&args, &hz)
}

#[test]
fn options_have_defaults() {
    assert_eq!(opts(&[]), Ok(Opts { profile: 1, band: ultra() }));
}

#[test]
fn options_are_read_in_order() {
    let o = opts(&["--profile", "2", "--band", "AUDIO", "--freq", "3.5"]).unwrap();
    assert_eq!((o.profile, o.band.name, o.band.base_freq), (2, "AUDIO", 3_500_000));
    // A frequency goes to the band that was named before it.
    let o = opts(&["--freq", "16", "--band", "AUDIO"]).unwrap();
    assert_eq!((o.band.name, o.band.base_freq), ("AUDIO", 3_000_000));
    let o = opts(&["--freq", "16", "--freq", "17.25"]).unwrap();
    assert_eq!(o.band.base_freq, 17_250_000);
    assert_eq!(opts(&["--profile", "+0"]).unwrap().profile, 0);
}

#[test]
fn what_is_not_understood_shows_the_usage() {
    for bad in [
        &["--profile"][..],
        &["--profile", "two"],
        &["--profile", "-1"],
        &["--profile", ""],
        &["--profile", "+"],
        &["--profile", "99999999999999999999999"],
        &["--band"],
        &["--freq"],
        &["--freq", "high"],
    ] {
        let e = opts(bad).unwrap_err();
        assert_eq!(e, CliError::Usage(None));
        assert_eq!(e.message(), None);
    }
    let e = opts(&["--loud"]).unwrap_err();
    assert_eq!(e, CliError::Usage(Some("--loud".into())));
    assert_eq!(e.message().unwrap(), "unknown option --loud");
}

#[test]
fn what_cannot_be_met_is_named() {
    let e = opts(&["--freq", "0.1"]).unwrap_err();
    assert_eq!(
        e.message().unwrap(),
        "bad --freq: too low: the chirp would start at -300 Hz, below the 300 Hz floor"
    );
    let e = opts(&["--band", "X", "--freq", "3"]).unwrap_err();
    assert_eq!(e.message().unwrap(), "bad --freq: unknown band \"X\"");
    let e = opts(&["--profile", "3"]).unwrap_err();
    assert_eq!(e, CliError::UnknownProfile(3));
    assert_eq!(e.message().unwrap(), "unknown profile 3");
    let e = opts(&["--band", "nope"]).unwrap_err();
    assert_eq!(e, CliError::UnknownBand("nope".into()));
    assert_eq!(e.message().unwrap(), "unknown band nope");
}

#[test]
fn a_written_packet_is_described() {
    let p = profile(0).unwrap();
    assert_eq!(
        written(496_320, 59, 0, &p, &ultra()),
        "wrote 496320 samples (10.34s) profile 0 FAST band ULTRA @ 18.200 kHz"
    );
    // 2.775 is no double; the nearest one lies below it.
    assert!(written(133_440, 5, 0, &p, &ultra()).starts_with("wrote 133440 samples (2.77s) "));
}

#[test]
fn a_decoded_recording_is_described() {
    let conf = 42 * CONFIDENCE_ONE - CONFIDENCE_ONE / 3;
    let mut r = decode_frame(&build_frame_bits(b"a\xFFb", 2), 0, conf, 3);
    r.profile_id = Some(2);
    assert_eq!(
        report_decoded(0x3F33_3333, 3_000, &r),
        vec![
            "preamble score 0.700 at sample 3000",
            "OK profile=ROBUST conf=42 3 bytes",
            "payload: a\u{FFFD}b"
        ]
    );
    r.profile_id = None;
    assert!(report_decoded(0, 0, &r)[1].starts_with("OK profile=? "));
    let r = decode_frame(&[], 0, 0, 3);
    assert_eq!(
        report_decoded(0, 7, &r),
        vec!["preamble score 0.000 at sample 7", "FAIL: truncated frame"]
    );
}

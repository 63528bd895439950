use acoustic_modem::audio::{
    config, list_devices, no_default_device, playback_limit, ConfigRange, CpalBackend, Pick,
    Playback,
};

fn names(v: &[Option<&str>]) -> Vec<Option<String>> {
    v.iter().map(|n| n.map(|s| s.to_string())).collect()
}

#[test]
fn a_device_is_found_by_name() {
    let b = CpalBackend::new(Some("Mic".into()), None);
    let list = names(&[None, Some("Line"), Some("Mic"), Some("Mic")]);
    assert_eq!(b.device(true, &list), Ok(Pick::Listed(2)));
    assert_eq!(b.device(false, &list), Ok(Pick::HostDefault));
    assert_eq!(
        b.device(true, &names(&[None, Some("mic")])).unwrap_err(),
        "no such input device: Mic"
    );
    let b = CpalBackend::new(None, Some("Amp".into()));
    assert_eq!(b.device(false, &[]).unwrap_err(), "no such output device: Amp");
    let d = CpalBackend::default();
    assert_eq!(d.device(true, &list), Ok(Pick::HostDefault));
    assert_eq!(no_default_device(true), "no default input device");
    assert_eq!(no_default_device(false), "no default output device");
}

#[test]
fn the_fewest_channels_at_48_khz_are_taken() {
    let r = |is_f32, min_rate, max_rate, channels| ConfigRange { is_f32, min_rate, max_rate, channels };
    assert_eq!(
        config(&[
            r(true, 44_100, 96_000, 4),
            r(true, 48_000, 48_000, 2),
            r(false, 8_000, 96_000, 1),
            r(true, 8_000, 44_100, 1),
            r(true, 96_000, 192_000, 1),
        ]),
        Ok(2)
    );
    assert_eq!(
        config(&[r(false, 8_000, 96_000, 1)]).unwrap_err(),
        "device does not support f32 at 48000 Hz (set it to 48000 Hz in the OS sound settings)"
    );
}

#[test]
fn a_dead_device_is_given_up_on() {
    assert_eq!(playback_limit(0), 5_000_000_000);
    assert_eq!(playback_limit(48_000), 6_000_000_000);
    // Two samples take 41666.67 ns.
    assert_eq!(playback_limit(2), 5_000_041_667);
    assert_eq!(playback_limit(1), 5_000_020_833);
    assert_eq!(playback_limit(usize::MAX), u64::MAX);
}

#[test]
fn playback_ends_in_silence() {
    let mut p = Playback { pos: 0, len: 2 };
    assert_eq!((p.next(), p.done()), (Some(0), false));
    assert_eq!((p.next(), p.done()), (Some(1), true));
    assert_eq!((p.next(), p.done()), (None, true));
}

#[test]
fn devices_are_listed_with_their_defaults() {
    assert_eq!(
        list_devices(
            &names(&[Some("Mic"), None]),
            &names(&[Some("Amp")]),
            Some("Mic".into()),
            Some("Other".into())
        ),
        vec!["  in   Mic *default", "  in   ?", "  out  Amp"]
    );
    assert_eq!(list_devices(&[], &[], None, None), vec!["  (no audio devices found)"]);
}

use acoustic_modem::framing::BROADCAST;
use acoustic_modem::trx::{Config, Event, Level, RxState, Stats, Transceiver};
use acoustic_modem::DETECT_THRESHOLD;

fn show(events: &[Event]) -> Vec<String> {
    events
        .iter()
        .map(|e| match e {
            Event::Log(l, t) => format!("{l:?}: {t}"),
            other => format!("{other:?}"),
        })
        .collect()
}

#[test]
fn a_new_transceiver_has_the_defaults() {
    let t = Transceiver::new(0xA1A1);
    assert_eq!((t.device_id(), t.peer_id(), t.is_running()), (0xA1A1, BROADCAST, false));
    let c = t.config();
    let d = Config::default();
    assert_eq!(c.active_band, "ULTRA");
    assert_eq!(
        (c.active_profile, c.detect_threshold, c.arq, c.arq_retries),
        (1, DETECT_THRESHOLD, true, 4)
    );
    assert_eq!(d.active_band, c.active_band);
    assert_eq!(t.bands().revision(), 0);
    assert_eq!(Stats::default().state, RxState::Off);
    assert_eq!(Stats::default().rx_ok, 0);
}

#[test]
fn the_broadcast_address_is_no_device_id() {
    let mut t = Transceiver::new(0xA1A1);
    assert_eq!(
        t.set_device_id(BROADCAST).unwrap_err(),
        "0000 is the broadcast address, not a device id"
    );
    assert_eq!(t.device_id(), 0xA1A1);
    t.set_device_id(0xB2B2).unwrap();
    assert_eq!(t.device_id(), 0xB2B2);
}

#[test]
fn retuning_is_announced() {
    let mut t = Transceiver::new(1);
    let (b, e) = t.set_frequency("ULTRA", 16_000_000).unwrap();
    assert_eq!(b.base_freq, 16_000_000);
    assert_eq!(
        show(&[e]),
        vec!["Info: ULTRA retuned to 16.000 kHz (chirp 15.60-17.40 kHz)  [AUDIBLE]"]
    );
    let (_, e) = t.set_frequency("ULTRA", 18_600_000).unwrap();
    assert_eq!(show(&[e]), vec!["Info: ULTRA retuned to 18.600 kHz (chirp 18.20-20.00 kHz)"]);
    assert_eq!(t.bands().revision(), 2);
    assert_eq!(t.active_band().base_freq, 18_600_000);
    assert_eq!(
        t.set_frequency("ULTRA", -5).err().unwrap(),
        "frequency must be a positive number"
    );
    assert_eq!(t.set_frequency("NOPE", 3_000_000).err().unwrap(), "unknown band \"NOPE\"");
    assert_eq!(t.bands().revision(), 2);
}

#[test]
fn a_receiver_starts_once() {
    let mut t = Transceiver::new(1);
    assert!(t.start_rx());
    assert!(!t.start_rx());
    assert!(t.is_running());
    t.stop_rx();
    assert!(!t.is_running());
    t.start_rx();
    assert_eq!(show(&[t.rx_failed("audio input closed")]), vec!["Error: RX stopped: audio input closed"]);
    assert!(!t.is_running());
}

#[test]
fn the_last_peer_reported_is_the_peer() {
    let mut t = Transceiver::new(1);
    t.note(&[
        Event::PeerChanged(7),
        Event::Log(Level::Info, "x".into()),
        Event::PeerChanged(9),
    ]);
    assert_eq!(t.peer_id(), 9);
    t.note(&[Event::Text("y".into())]);
    assert_eq!(t.peer_id(), 9);
    t.note(&[Event::PeerChanged(BROADCAST)]);
    assert_eq!(t.peer_id(), BROADCAST);
}

#[test]
fn sending_is_announced() {
    let mut t = Transceiver::new(1);
    let out = t.send_text("hi", 0).unwrap();
    assert_eq!(
        show(&out.events),
        vec![
            "Info: TX 1 frag(s) NORMAL @ 18.20 kHz (ULTRA), ~5.8s of audio",
            "Warn: ARQ needs RX on to hear ACKs -- sending blind"
        ]
    );
    assert_eq!((out.profile_id, out.band.name), (1, "ULTRA"));
    t.start_rx();
    let out = t.send_text(&"x".repeat(100), 0).unwrap();
    assert_eq!(out.events.len(), 1);
    assert!(show(&out.events)[0].starts_with("Info: TX 3 frag(s) NORMAL @ 18.20 kHz (ULTRA), ~"));
}

#[test]
fn an_unknown_profile_cannot_send() {
    let mut t = Transceiver::new(1);
    t.start_rx();
    let mut c = t.config();
    c.active_profile = 3;
    t.update_config(c);
    assert_eq!(t.send_text("hi", 0).err().unwrap(), "unknown profile");
    assert_eq!(t.discover(0).err().unwrap(), "unknown profile");
}

#[test]
fn messages_are_numbered_from_one() {
    let mut t = Transceiver::new(1);
    for want in 1..4u16 {
        let x = t.send_text("hi", 0).unwrap().transfer;
        let frame = acoustic_modem::framing::parse(&x.frame()).unwrap();
        assert!(matches!(frame, acoustic_modem::framing::Frame::Data { hdr, .. } if hdr.msg_id == want));
    }
}

#[test]
fn a_known_peer_is_addressed_directly() {
    let mut t = Transceiver::new(1);
    t.start_rx();
    t.note(&[Event::PeerChanged(0xB2B2)]);
    let x = t.send_text("hi", 0).unwrap().transfer;
    let frame = acoustic_modem::framing::parse(&x.frame()).unwrap();
    assert!(matches!(frame, acoustic_modem::framing::Frame::Data { hdr, .. } if hdr.dst == 0xB2B2));
    t.stop_rx();
    let x = t.send_text("hi", 0).unwrap().transfer;
    let frame = acoustic_modem::framing::parse(&x.frame()).unwrap();
    assert!(matches!(frame, acoustic_modem::framing::Frame::Data { hdr, .. } if hdr.dst == BROADCAST));
}

#[test]
fn the_estimate_adds_up_the_packets() {
    let t = || {
        let mut t = Transceiver::new(1);
        t.start_rx();
        t
    };
    for id in 0..acoustic_modem::profile::PROFILE_COUNT {
        let p = acoustic_modem::profile::profile(id).unwrap();
        let mut t = t();
        let mut c = t.config();
        c.active_profile = id;
        t.update_config(c);
        for len in (0..700usize).step_by(3) {
            let est: f64 = (0..len.div_ceil(48).max(1))
                .map(|i| {
                    let frag = (len - 48 * i).min(48);
                    let n = acoustic_modem::packet::packet_samples(frag + 11, &p, &t.active_band());
                    n as f64 / 48_000.0
                })
                .sum();
            let out = t.send_text(&"x".repeat(len), 0).unwrap();
            assert!(
                show(&out.events)[0].ends_with(&format!(", ~{est:.1}s of audio")),
                "{len}: {est} {:?}",
                show(&out.events)
            );
        }
    }
}

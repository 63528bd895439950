use acoustic_modem::band::{audio, ultra};
use acoustic_modem::fec::{crc16, hamming_encode, interleave, BLOCK_BITS};
use acoustic_modem::packet::{
    build_frame_bits, data_offset_in_packet, decode_frame, decode_header, default_sync_offsets,
    encode_packet, frame_samples, frame_symbols, header_symbols, list_probes, packet_duration_s,
    packet_samples, padded_body_bytes, span_samples, sync_offsets, try_decode, Probe, Want,
    FRAME_OVERHEAD_BYTES, HEADER_BODY_BYTES, PREAMBLE_MARKER,
};
use acoustic_modem::profile::{profile, PROFILE_COUNT};

/// The wire bits of a header body.
fn header_bits(body: &[u8]) -> Vec<u8> {
    interleave(&hamming_encode(body))
}

fn header_body(profile_id: u8, len: u16) -> Vec<u8> {
    let fields = [profile_id, (len >> 8) as u8, len as u8];
    let mut body = PREAMBLE_MARKER.to_vec();
    body.extend_from_slice(&fields);
    body.push(crc16(&fields) as u8);
    body
}

#[test]
fn sizes_match_the_reference_implementation() {
    assert_eq!(HEADER_BODY_BYTES, 6);
    assert_eq!(FRAME_OVERHEAD_BYTES, 8);
    assert_eq!(padded_body_bytes(0), 12);
    assert_eq!(padded_body_bytes(48), 60);
    assert_eq!(header_symbols(&profile(0).unwrap()), 42);
    assert_eq!(default_sync_offsets().len(), 11);
    assert_eq!(default_sync_offsets()[..3], [0, 36, -36]);
}

#[test]
fn packet_durations_match_the_documented_numbers() {
    let d = packet_duration_s(59, &profile(0).unwrap(), &ultra()) as f64 / 1e9;
    assert!((d - 10.34).abs() < 0.02, "FAST 59B was {d}");
    let d = packet_duration_s(59, &profile(2).unwrap(), &ultra()) as f64 / 1e9;
    assert!((d - 30.48).abs() < 0.02, "ROBUST 59B was {d}");
}

#[test]
fn lengths_are_counted_to_the_sample() {
    let p = profile(0).unwrap();
    // 59 bytes fill 72, which take 1008 bits and half as many symbols.
    assert_eq!(padded_body_bytes(59), 72);
    assert_eq!(frame_symbols(59, &p), 504);
    assert_eq!(frame_samples(59, &p), 503 * 960 + 720);
    assert_eq!(span_samples(0, &p), 0);
    assert_eq!(span_samples(1, &p), 720);
    assert_eq!(packet_samples(59, &p, &ultra()), 9_600 + 2_880 + 483_600);
    assert_eq!(packet_duration_s(59, &p, &ultra()), 10_335_000_000);
    assert_eq!(data_offset_in_packet(&audio()), 2_880 + 960);
    // A chirp of two samples: the time falls between two nanoseconds.
    let mut b = ultra();
    b.chirp_ms = 42;
    assert_eq!(packet_samples(59, &p, &b), 9_600 + 2 + 483_600);
    assert_eq!(packet_duration_s(59, &p, &b), 10_275_041_667);
}

#[test]
fn a_packet_plan_is_as_long_as_it_is_said_to_be() {
    for id in 0..PROFILE_COUNT {
        let p = profile(id).unwrap();
        for n in [0usize, 1, 11, 59] {
            let plan = encode_packet(&vec![7; n], id, &audio());
            assert_eq!(
                (plan.lead_in, plan.chirp, plan.gap, plan.tail),
                (5_760, 2_880, 960, 2_880)
            );
            assert_eq!((plan.symbol, plan.guard), (p.symbol_samples(), p.guard_samples()));
            assert_eq!(plan.symbols.len(), frame_symbols(n, &p));
            assert!(plan.symbols.iter().all(|&s| s < p.n_tones()));
            let total = plan.lead_in
                + plan.chirp
                + plan.gap
                + plan.symbols.len() * (plan.symbol + plan.guard)
                + plan.tail;
            // The guard behind the last symbol is silence like the tail.
            assert_eq!(total as u64, packet_samples(n, &p, &audio()) + plan.guard as u64);
        }
    }
}

#[test]
fn frames_read_back_what_was_built() {
    for id in 0..PROFILE_COUNT {
        for payload in [&b""[..], b"x", b"hello acoustic world"] {
            let bits = build_frame_bits(payload, id);
            assert_eq!(bits.len(), 14 * padded_body_bytes(payload.len()));
            let h = decode_header(&bits, 42, 9, 4096);
            assert!(h.ok, "{}", h.reason);
            assert_eq!((h.profile_id, h.length, h.offset, h.confidence), (Some(id), payload.len(), 42, 9));
            assert!(h.payload.is_empty());
            let f = decode_frame(&bits, 42, 9, payload.len());
            assert!(f.ok, "{}", f.reason);
            assert_eq!(f.payload, payload);
            assert_eq!((f.profile_id, f.length, f.reason.as_str()), (None, payload.len(), ""));
        }
    }
}

#[test]
fn the_header_fields_are_on_the_wire() {
    let mut body = PREAMBLE_MARKER.to_vec();
    body.extend_from_slice(&[1, 0, 1]);
    body.push(crc16(&[1, 0, 1]) as u8);
    body.push(b'x');
    let crc = crc16(&body);
    body.extend_from_slice(&[(crc >> 8) as u8, crc as u8, 0, 0, 0]);
    assert_eq!(build_frame_bits(b"x", 1), interleave(&hamming_encode(&body)));
}

#[test]
fn one_flip_in_every_codeword_is_corrected() {
    let mut bits = build_frame_bits(b"hello", 2);
    // The interleaver puts each codeword's bits twelve apart, so twelve bits in a row
    // are one bit of each codeword of a block.
    for block in bits.chunks_mut(BLOCK_BITS) {
        for b in &mut block[24..36] {
            *b ^= 1;
        }
    }
    assert!(decode_header(&bits, 0, 0, 4096).ok);
    assert_eq!(decode_frame(&bits, 0, 0, 5).payload, b"hello");
}

#[test]
fn a_burst_is_corrected_wherever_it_falls() {
    let clean = build_frame_bits(b"burst", 0);
    for at in 0..clean.len() - 12 {
        let mut bits = clean.clone();
        for b in &mut bits[at..at + 12] {
            *b ^= 1;
        }
        assert_eq!(decode_frame(&bits, 0, 0, 5).payload, b"burst", "burst at {at}");
    }
}

#[test]
fn every_way_a_header_fails_is_named() {
    let why = |bits: &[u8], max: usize| {
        let r = decode_header(bits, 5, 7, max);
        assert!(!r.ok);
        assert_eq!((r.offset, r.confidence, r.length, r.profile_id), (5, 7, 0, None));
        r.reason
    };
    let good = header_bits(&header_body(1, 10));
    assert!(decode_header(&good, 0, 0, 10).ok);
    assert_eq!(why(&good[..83], 10), "short read");
    assert_eq!(why(&[], 10), "short read");
    assert_eq!(why(&header_bits(&[0; 6]), 10), "marker mismatch");
    let mut body = header_body(1, 10);
    body[5] ^= 1;
    assert_eq!(why(&header_bits(&body), 10), "header CRC fail");
    assert_eq!(why(&good, 9), "payload too large");
    assert_eq!(why(&header_bits(&header_body(3, 10)), 10), "unknown profile id");
    // The length is judged before the profile.
    assert_eq!(why(&header_bits(&header_body(3, 10)), 9), "payload too large");
}

#[test]
fn every_way_a_frame_fails_is_named() {
    let bits = build_frame_bits(b"hello", 0);
    assert_eq!(decode_frame(&bits[..bits.len() - 1], 0, 0, 5).reason, "truncated frame");
    assert_eq!(decode_frame(&[], 0, 0, 5).reason, "truncated frame");
    let mut bad = bits.clone();
    // Two flips in one codeword are more than the code corrects.
    bad[84] ^= 1;
    bad[96] ^= 1;
    let r = decode_frame(&bad, 3, 8, 5);
    assert_eq!((r.ok, r.reason.as_str(), r.offset, r.confidence), (false, "frame CRC fail", 3, 8));
    assert!(r.payload.is_empty());
}

#[test]
fn offsets_are_searched_nearest_first() {
    assert_eq!(
        default_sync_offsets(),
        vec![0, 36, -36, 72, -72, 108, -108, 144, -144, 180, -180]
    );
    // A step below one sample is one sample, and at least one step is searched.
    assert_eq!(sync_offsets(0, 0), vec![0, 1, -1]);
    assert_eq!(sync_offsets(1_000, 10_000), vec![0, 480, -480]);
}

#[test]
fn probes_skip_unknown_profiles_and_places_before_the_start() {
    let p = |profile_id: usize, start: isize| Probe { profile_id, start };
    assert_eq!(
        list_probes(&[2, 9, 0], 10, &[0, 36, -36]),
        vec![p(2, 10), p(2, 46), p(0, 10), p(0, 46)]
    );
}

#[test]
fn the_first_frame_found_wins_the_search() {
    let bits = build_frame_bits(b"hi", 1);
    let mut s = try_decode(&[0, 1], 1000, 4096);
    assert_eq!(s.want(), Want::Header(Probe { profile_id: 0, start: 1000 }));
    s.tell(&[], 0);
    assert_eq!(s.want(), Want::Header(Probe { profile_id: 0, start: 1036 }));
    for _ in 1..11 {
        s.tell(&[], 0);
    }
    assert_eq!(s.want(), Want::Header(Probe { profile_id: 1, start: 1000 }));
    s.tell(&bits[..84], 5);
    assert_eq!(s.want(), Want::Frame(Probe { profile_id: 1, start: 1000 }, 2));
    s.tell(&bits, 6);
    assert_eq!(s.want(), Want::Nothing);
    let r = s.result();
    assert!(r.ok);
    assert_eq!((r.payload, r.profile_id, r.offset, r.confidence), (b"hi".to_vec(), Some(1), 1000, 6));
}

#[test]
fn the_last_broken_frame_is_what_a_search_reports() {
    let bits = build_frame_bits(b"hi", 1);
    let mut s = try_decode(&[1], 1000, 4096);
    s.tell(&vec![0; 84], 1);
    s.tell(&bits[..84], 2);
    s.tell(&[], 3);
    while s.want() != Want::Nothing {
        s.tell(&vec![0; 84], 4);
    }
    let r = s.result();
    assert_eq!((r.ok, r.reason.as_str(), r.offset, r.profile_id), (false, "truncated frame", 1036, Some(1)));
}

#[test]
fn the_first_misread_header_is_reported_when_nothing_else_was() {
    let mut s = try_decode(&[1], 1000, 4096);
    s.tell(&[], 0);
    s.tell(&vec![0; 84], 2);
    let mut body = header_body(1, 3);
    body[5] ^= 1;
    while s.want() != Want::Nothing {
        s.tell(&header_bits(&body), 3);
    }
    let r = s.result();
    assert_eq!((r.reason.as_str(), r.offset, r.confidence), ("marker mismatch", 1036, 2));
}

#[test]
fn audio_that_is_too_short_has_no_candidate() {
    let mut s = try_decode(&[0, 1, 2], 1000, 4096);
    let mut asked = 0;
    while s.want() != Want::Nothing {
        s.tell(&[], 0);
        asked += 1;
    }
    assert_eq!(asked, 33);
    let r = s.result();
    assert_eq!((r.reason.as_str(), r.offset), ("no candidate", 1000));
    assert_eq!(try_decode(&[7], 1000, 4096).result().reason, "no candidate");
}

use acoustic_modem::framing::{
    decode_file_blob, encode_ack, encode_file_meta, encode_hello, parse, CtrlFrame, FileMeta,
    FragHeader, Frame, ACK_HDR_LEN, ACK_REQ, FRAG_HDR_LEN, HELLO_HDR_LEN, TYPE_MASK, T_ACK,
    T_FILE, T_HELLO, T_HELLO_ACK, T_TEXT,
};

#[test]
fn header_sizes_match_the_reference() {
    let h = FragHeader {
        kind: T_TEXT,
        ack_req: true,
        src: 0xA1A1,
        dst: 0xB2B2,
        msg_id: 7,
        frag_idx: 1,
        frag_total: 3,
    };
    assert_eq!(h.encode(&[]).len(), FRAG_HDR_LEN);
    assert_eq!(encode_hello(T_HELLO, 1, 2).len(), HELLO_HDR_LEN);
    assert_eq!(encode_ack(1, 2, 3, 4).len(), ACK_HDR_LEN);
}

#[test]
fn fields_are_big_endian() {
    let h = FragHeader {
        kind: T_TEXT,
        ack_req: true,
        src: 0x0102,
        dst: 0x0304,
        msg_id: 0x0506,
        frag_idx: 0x0708,
        frag_total: 0x090A,
    };
    assert_eq!(h.encode(b"!"), vec![0x81, 1, 2, 3, 4, 5, 6, 7, 8, 9, 10, b'!']);
    assert_eq!(encode_hello(T_HELLO, 0x0102, 0x0304), vec![0x10, 1, 2, 3, 4]);
    assert_eq!(
        encode_ack(0x0102, 0x0304, 0x0506, 0x0708),
        vec![0x12, 1, 2, 3, 4, 5, 6, 7, 8]
    );
}

#[test]
fn data_frames_round_trip_with_the_ack_flag_intact() {
    for ack_req in [false, true] {
        let h = FragHeader {
            kind: T_FILE,
            ack_req,
            src: 0x1234,
            dst: 0xFEDC,
            msg_id: 0xBEEF,
            frag_idx: 2,
            frag_total: 9,
        };
        let wire = h.encode(b"body");
        // The flag lives in the high bit of the type byte.
        assert_eq!(wire[0] & ACK_REQ != 0, ack_req);
        assert_eq!(wire[0] & TYPE_MASK, T_FILE);
        match parse(&wire).unwrap() {
            Frame::Data { hdr, payload } => {
                assert_eq!(hdr, h);
                assert_eq!(payload, b"body");
            }
            other => panic!("expected data, got {other:?}"),
        }
    }
}

#[test]
fn a_kind_above_seven_bits_loses_its_top_bit() {
    let h = FragHeader {
        kind: 0x83,
        ack_req: false,
        src: 1,
        dst: 2,
        msg_id: 3,
        frag_idx: 0,
        frag_total: 1,
    };
    assert_eq!(h.encode(b"")[0], 0x03);
}

#[test]
fn control_frames_round_trip() {
    match parse(&encode_ack(0xAAAA, 0xBBBB, 5, 6)).unwrap() {
        Frame::Ctrl(c) => {
            assert_eq!(
                c,
                CtrlFrame { kind: T_ACK, src: 0xAAAA, dst: 0xBBBB, msg_id: 5, frag_idx: 6 }
            );
        }
        other => panic!("expected ctrl, got {other:?}"),
    }
    match parse(&encode_hello(T_HELLO_ACK, 1, 2)).unwrap() {
        Frame::Ctrl(c) => assert_eq!(c.kind, T_HELLO_ACK),
        other => panic!("expected ctrl, got {other:?}"),
    }
}

#[test]
fn hello_fields_come_back() {
    assert_eq!(
        parse(&encode_hello(T_HELLO, 0xABCD, 0x1234)),
        Some(Frame::Ctrl(CtrlFrame {
            kind: T_HELLO,
            src: 0xABCD,
            dst: 0x1234,
            msg_id: 0,
            frag_idx: 0
        }))
    );
}

#[test]
fn malformed_frames_are_rejected_rather_than_panicking() {
    assert!(parse(&[]).is_none());
    assert!(parse(&[T_ACK, 1]).is_none(), "truncated ack");
    assert!(parse(&[T_TEXT, 0, 0]).is_none(), "truncated data header");
    // frag_total of zero, and an index past the end, are both nonsense.
    let mut h = FragHeader {
        kind: T_TEXT,
        ack_req: false,
        src: 1,
        dst: 2,
        msg_id: 3,
        frag_idx: 0,
        frag_total: 0,
    };
    assert!(parse(&h.encode(b"")).is_none());
    h.frag_total = 2;
    h.frag_idx = 2;
    assert!(parse(&h.encode(b"")).is_none());
}

#[test]
fn every_truncation_of_a_frame_is_rejected() {
    let ack = encode_ack(1, 2, 3, 4);
    for n in 0..ACK_HDR_LEN {
        assert!(parse(&ack[..n]).is_none(), "ack of {n}");
    }
    let hello = encode_hello(T_HELLO, 1, 2);
    for n in 0..HELLO_HDR_LEN {
        assert!(parse(&hello[..n]).is_none(), "hello of {n}");
    }
    let h = FragHeader {
        kind: T_TEXT,
        ack_req: true,
        src: 1,
        dst: 2,
        msg_id: 3,
        frag_idx: 0,
        frag_total: 1,
    };
    let data = h.encode(b"");
    for n in 0..FRAG_HDR_LEN {
        assert!(parse(&data[..n]).is_none(), "data of {n}");
    }
    assert!(parse(&data).is_some());
}

#[test]
fn file_metadata_round_trips() {
    let body = b"file contents here".to_vec();
    let mut blob = encode_file_meta("report.bin", body.len() as u32);
    blob.extend_from_slice(&body);
    let (meta, data) = decode_file_blob(&blob).unwrap();
    assert_eq!(meta, FileMeta { name: "report.bin".into(), size: body.len() as u32 });
    assert_eq!(data, body);
}

#[test]
fn file_metadata_has_the_documented_layout() {
    assert_eq!(encode_file_meta("ab", 0x01020304), vec![2, b'a', b'b', 1, 2, 3, 4]);
    assert_eq!(encode_file_meta("", 0), vec![0, 0, 0, 0, 0]);
    let long = "x".repeat(300);
    let meta = encode_file_meta(&long, 7);
    assert_eq!(meta.len(), 260);
    assert_eq!(meta[0], 255);
    assert_eq!(meta[256..], [0, 0, 0, 7]);
}

#[test]
fn file_contents_stop_at_the_announced_size() {
    let mut blob = encode_file_meta("f", 3);
    blob.extend_from_slice(b"abcdef");
    let (meta, data) = decode_file_blob(&blob).unwrap();
    assert_eq!(meta.size, 3);
    assert_eq!(data, b"abc");

    // An announced size beyond the end gives what there is.
    let mut blob = encode_file_meta("f", u32::MAX);
    blob.extend_from_slice(b"abcdef");
    let (meta, data) = decode_file_blob(&blob).unwrap();
    assert_eq!(meta.size, u32::MAX);
    assert_eq!(data, b"abcdef");
}

#[test]
fn malformed_file_messages_are_rejected() {
    assert!(decode_file_blob(&[]).is_none());
    assert!(decode_file_blob(&[3, b'a', b'b', b'c', 0, 0, 0]).is_none());
    assert!(decode_file_blob(&[3, b'a', b'b', b'c', 0, 0, 0, 0]).is_some());
}

#[test]
fn broken_names_are_repaired() {
    let blob = [2, 0xC3, b'x', 0, 0, 0, 0];
    let (meta, data) = decode_file_blob(&blob).unwrap();
    assert_eq!(meta.name, "\u{FFFD}x");
    assert!(data.is_empty());
    let mut blob = encode_file_meta("gr\u{fc}\u{df}e.txt", 0);
    blob.push(b'!');
    assert_eq!(decode_file_blob(&blob).unwrap().0.name, "gr\u{fc}\u{df}e.txt");
}

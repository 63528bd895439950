use acoustic_modem::dispatch::{handle_frame, Dispatch};
use acoustic_modem::framing::{
    encode_ack, encode_hello, parse, CtrlFrame, FragHeader, Frame, BROADCAST, T_ACK, T_HELLO,
    T_HELLO_ACK, T_TEXT,
};
use acoustic_modem::reassembly::Reassembler;
use acoustic_modem::trx::{Event, Transceiver};

const ME: u16 = 0xB2B2;

fn show(events: &[Event]) -> Vec<String> {
    events
        .iter()
        .map(|e| match e {
            Event::Log(l, t) => format!("{l:?}: {t}"),
            Event::Text(t) => format!("text {t}"),
            Event::PeerChanged(id) => format!("peer {id:04X}"),
            other => format!("{other:?}"),
        })
        .collect()
}

fn data(dst: u16, ack_req: bool) -> Vec<u8> {
    FragHeader {
        kind: T_TEXT,
        ack_req,
        src: 0xA1A1,
        dst,
        msg_id: 7,
        frag_idx: 1,
        frag_total: 3,
    }
    .encode(b"part")
}

fn silent(d: &Dispatch) -> bool {
    d.reply.is_none() && d.hand_over.is_none() && d.fragment.is_none()
}

#[test]
fn a_hello_is_answered_with_our_id() {
    for dst in [BROADCAST, ME] {
        let d = handle_frame(&encode_hello(T_HELLO, 0xA1A1, dst), ME);
        assert_eq!(
            show(&d.events),
            vec!["Info: hello from A1A1 -- answering as B2B2", "peer A1A1"]
        );
        assert_eq!(d.reply, Some(encode_hello(T_HELLO_ACK, ME, 0xA1A1)));
        assert!(d.hand_over.is_none() && d.fragment.is_none());
        assert!(show(&d.replied(None)).is_empty());
        assert_eq!(show(&d.replied(Some("no device"))), vec!["Error: hello-ack failed: no device"]);
    }
}

#[test]
fn control_frames_for_us_are_handed_over() {
    let d = handle_frame(&encode_ack(0xA1A1, ME, 3, 4), ME);
    assert_eq!(
        d.hand_over,
        Some(CtrlFrame { kind: T_ACK, src: 0xA1A1, dst: ME, msg_id: 3, frag_idx: 4 })
    );
    assert!(d.events.is_empty() && d.reply.is_none() && d.fragment.is_none());
    let d = handle_frame(&encode_hello(T_HELLO_ACK, 0xA1A1, BROADCAST), ME);
    assert!(d.hand_over.is_some());
    // An ack to everyone acknowledges nobody's fragment.
    assert!(silent(&handle_frame(&encode_ack(0xA1A1, BROADCAST, 3, 4), ME)));
}

#[test]
fn frames_for_someone_else_are_dropped_without_a_reply() {
    for frame in [
        encode_hello(T_HELLO, 0xA1A1, 0xC3C3),
        encode_hello(T_HELLO_ACK, 0xA1A1, 0xC3C3),
        encode_ack(0xA1A1, 0xC3C3, 3, 4),
        data(0xC3C3, true),
    ] {
        assert!(silent(&handle_frame(&frame, ME)));
    }
    let d = handle_frame(&data(0xC3C3, true), ME);
    assert_eq!(show(&d.events), vec!["Info: frag for C3C3, not us -- ignored"]);
}

#[test]
fn a_fragment_is_acked_when_asked() {
    for dst in [BROADCAST, ME] {
        let d = handle_frame(&data(dst, true), ME);
        assert_eq!(show(&d.events), vec!["peer A1A1"]);
        assert_eq!(d.reply, Some(encode_ack(ME, 0xA1A1, 7, 1)));
        let (hdr, frag) = d.fragment.clone().unwrap();
        assert_eq!((hdr.src, hdr.msg_id, hdr.frag_idx, hdr.frag_total), (0xA1A1, 7, 1, 3));
        assert_eq!(frag, b"part");
        assert_eq!(show(&d.replied(None)), vec!["Info: acked frag 2/3 to A1A1"]);
        assert_eq!(show(&d.replied(Some("muted"))), vec!["Error: ack failed: muted"]);
    }
    let d = handle_frame(&data(BROADCAST, false), ME);
    assert!(d.events.is_empty() && d.reply.is_none() && d.fragment.is_some());
}

#[test]
fn nonsense_is_reported() {
    let d = handle_frame(&[0x33, 1, 2, 3], ME);
    assert!(silent(&d));
    assert_eq!(show(&d.events), vec!["Warn: frame decoded but is not a known message type"]);
    assert_eq!(show(&handle_frame(&[], ME).events).len(), 1);
}

#[test]
fn the_listeners_ack_is_the_one_the_sender_waits_for() {
    let mut a = Transceiver::new(0xA1A1);
    a.start_rx();
    let mut x = a.send_text("hi", 0).unwrap().transfer;
    let d = handle_frame(&x.frame(), ME);
    x.sent();
    let reply = handle_frame(&d.reply.unwrap(), 0xA1A1);
    x.on_ctrl(&reply.hand_over.unwrap());
    assert_eq!(x.phase(), acoustic_modem::sender::Phase::Done);
}

#[test]
fn texts_and_files_arrive_as_they_were_sent() {
    let mut a = Transceiver::new(0xA1A1);
    let mut c = a.config();
    c.arq = false;
    a.update_config(c);
    let text = "\u{e9}t\u{e9} ".repeat(30);
    for file in [false, true] {
        let mut r = Reassembler::new();
        let mut x = if file {
            a.send_file("n.txt", text.as_bytes(), 0).unwrap().transfer
        } else {
            a.send_text(&text, 0).unwrap().transfer
        };
        let mut last = Vec::new();
        while x.phase() == acoustic_modem::sender::Phase::Send {
            let d = handle_frame(&x.frame(), ME);
            let (hdr, frag) = d.fragment.unwrap();
            last = r.reassemble(&hdr, frag, 0);
            x.sent();
        }
        match &last[1] {
            Event::Text(t) => assert_eq!((t, file), (&text, false)),
            Event::File { meta, data } => {
                assert_eq!((meta.name.as_str(), meta.size as usize), ("n.txt", text.len()));
                assert_eq!((data.as_slice(), file), (text.as_bytes(), true));
            }
            other => panic!("{other:?}"),
        }
    }
}

#[test]
fn acks_answer_requests_and_nothing_else() {
    let asked = [data(ME, true), data(BROADCAST, true)];
    for f in &asked {
        let reply = handle_frame(f, ME).reply.unwrap();
        assert!(matches!(parse(&reply), Some(Frame::Ctrl(c)) if c.kind == T_ACK && c.dst == 0xA1A1));
    }
    for f in [data(ME, false), encode_ack(1, ME, 2, 3), encode_hello(T_HELLO_ACK, 1, ME)] {
        assert!(handle_frame(&f, ME).reply.is_none());
    }
}

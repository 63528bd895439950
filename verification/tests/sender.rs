use acoustic_modem::framing::{
    parse, CtrlFrame, Frame, BROADCAST, T_ACK, T_FILE, T_HELLO, T_HELLO_ACK, T_TEXT,
};
use acoustic_modem::sender::{
    Handshake, Phase, Transfer, ARQ_RETRIES, ECHO_TAIL, FRAGMENT_GAP, HANDSHAKE_RETRIES,
    REPLY_GUARD_S, TURNAROUND_S,
};
use acoustic_modem::trx::{Event, Transceiver};

fn show(events: &[Event]) -> Vec<String> {
    events
        .iter()
        .map(|e| match e {
            Event::Log(l, t) => format!("{l:?}: {t}"),
            Event::Progress { pct, note } => format!("{pct}% {note}"),
            Event::PeerChanged(id) => format!("peer {id:04X}"),
            other => format!("{other:?}"),
        })
        .collect()
}

fn running(id: u16) -> Transceiver {
    let mut t = Transceiver::new(id);
    assert!(t.start_rx());
    t
}

fn transfer(t: &mut Transceiver, text: &str) -> Transfer {
    t.send_text(text, 0).unwrap().transfer
}

fn ack(src: u16, dst: u16, msg_id: u16, frag_idx: u16) -> CtrlFrame {
    CtrlFrame { kind: T_ACK, src, dst, msg_id, frag_idx }
}

#[test]
fn replies_come_after_the_echo_has_died() {
    assert!(REPLY_GUARD_S > ECHO_TAIL);
    assert_eq!((REPLY_GUARD_S, ECHO_TAIL, TURNAROUND_S), (400_000_000, 200_000_000, 2_500_000_000));
    assert_eq!((ARQ_RETRIES, HANDSHAKE_RETRIES), (4, 3));
}

#[test]
fn fragments_are_cut_at_48_bytes() {
    let mut t = running(0xA1A1);
    let text = "A".repeat(48) + "B";
    let mut x = transfer(&mut t, &text);
    let Some(Frame::Data { hdr, payload }) = parse(&x.frame()) else { panic!("no data frame") };
    assert_eq!((hdr.kind, hdr.ack_req, hdr.src, hdr.dst), (T_TEXT, true, 0xA1A1, BROADCAST));
    assert_eq!((hdr.msg_id, hdr.frag_idx, hdr.frag_total), (1, 0, 2));
    assert_eq!(payload, "A".repeat(48).into_bytes());
    x.sent();
    x.on_ctrl(&ack(0xB2B2, 0xA1A1, 1, 0));
    let Some(Frame::Data { hdr, payload }) = parse(&x.frame()) else { panic!("no data frame") };
    // Only now is the peer addressed by name.
    assert_eq!((hdr.dst, hdr.frag_idx, hdr.frag_total), (0xB2B2, 1, 2));
    assert_eq!(payload, b"B");
}

#[test]
fn an_empty_message_is_one_empty_fragment() {
    let mut t = running(1);
    let x = transfer(&mut t, "");
    let Some(Frame::Data { hdr, payload }) = parse(&x.frame()) else { panic!("no data frame") };
    assert_eq!(hdr.frag_total, 1);
    assert!(payload.is_empty());
}

#[test]
fn a_transfer_advances_on_its_acks() {
    let mut t = running(0xA1A1);
    let mut x = transfer(&mut t, &"m".repeat(60));
    assert_eq!(x.phase(), Phase::Send);
    assert!(show(&x.sent()).is_empty());
    assert_eq!(x.phase(), Phase::Await);
    assert_eq!(
        show(&x.on_ctrl(&ack(0xB2B2, 0xA1A1, 1, 0))),
        vec![
            "peer B2B2",
            "Info: peer B2B2 identified itself in its ack",
            "Info: frag 1/2 acked by B2B2",
            "50% TX 1/2"
        ]
    );
    assert_eq!(x.phase(), Phase::Send);
    x.sent();
    assert_eq!(
        show(&x.on_ctrl(&ack(0xB2B2, 0xA1A1, 1, 1))),
        vec!["Info: frag 2/2 acked by B2B2", "100% TX 2/2"]
    );
    assert_eq!(x.phase(), Phase::Done);
}

#[test]
fn stray_control_frames_advance_nothing() {
    let mut t = running(0xA1A1);
    let mut x = transfer(&mut t, &"m".repeat(60));
    x.sent();
    x.on_ctrl(&ack(0xB2B2, 0xA1A1, 1, 0));
    x.sent();
    let strays = [
        (ack(0xC3C3, 0xA1A1, 1, 1), "Warn: ignored control frame 0x12 from C3C3"),
        (ack(0xB2B2, 0xFFFF, 1, 1), "Warn: ignored control frame 0x12 from B2B2"),
        (ack(0xB2B2, 0xA1A1, 2, 1), "Warn: ignored control frame 0x12 from B2B2"),
        (ack(0xB2B2, 0xA1A1, 1, 0), "Warn: ignored control frame 0x12 from B2B2"),
        (
            CtrlFrame { kind: T_HELLO_ACK, ..ack(0xB2B2, 0xA1A1, 1, 1) },
            "Warn: ignored control frame 0x11 from B2B2",
        ),
    ];
    for (c, note) in strays {
        assert_eq!(show(&x.on_ctrl(&c)), vec![note]);
        assert_eq!(x.phase(), Phase::Await);
    }
    x.on_ctrl(&ack(0xB2B2, 0xA1A1, 1, 1));
    assert_eq!(x.phase(), Phase::Done);
}

#[test]
fn silence_is_answered_by_four_attempts_and_then_failure() {
    let mut t = running(0xA1A1);
    let mut x = transfer(&mut t, "hi");
    for attempt in 1..4 {
        assert_eq!(x.phase(), Phase::Send);
        x.sent();
        assert_eq!(
            show(&x.on_timeout()),
            vec![format!("Warn: frag 1/1 unacked (attempt {attempt}/4) -- resending")]
        );
    }
    x.sent();
    assert_eq!(
        show(&x.on_timeout()),
        vec![
            "Warn: frag 1/1 unacked (attempt 4/4) -- resending",
            "peer 0000",
            "0% TX failed",
            "Error: frag 1/1 gave up after 4 attempts; message 0001 is incomplete",
        ]
    );
    assert_eq!(x.phase(), Phase::Failed);
    assert_eq!(x.failure(), "frag 1/1 gave up after 4 attempts; message 0001 is incomplete");
}

#[test]
fn an_ack_after_a_resend_still_counts() {
    let mut t = running(0xA1A1);
    let mut x = transfer(&mut t, "hi");
    let first = x.frame();
    x.sent();
    x.on_timeout();
    assert_eq!(x.frame(), first);
    x.sent();
    x.on_ctrl(&ack(0xB2B2, 0xA1A1, 1, 0));
    assert_eq!(x.phase(), Phase::Done);
}

#[test]
fn without_arq_each_fragment_is_sent_once() {
    let mut t = running(0xA1A1);
    let mut c = t.config();
    c.arq = false;
    t.update_config(c);
    let mut x = transfer(&mut t, &"m".repeat(60));
    let Some(Frame::Data { hdr, .. }) = parse(&x.frame()) else { panic!("no data frame") };
    assert_eq!((hdr.ack_req, hdr.dst), (false, BROADCAST));
    assert_eq!(show(&x.sent()), vec!["50% TX 1/2"]);
    assert_eq!(x.phase(), Phase::Send);
    assert_eq!(show(&x.sent()), vec!["100% TX 2/2"]);
    assert_eq!(x.phase(), Phase::Done);
}

#[test]
fn the_ack_wait_covers_the_ack_itself() {
    let mut t = running(1);
    let mut c = t.config();
    c.active_profile = 0;
    t.update_config(c);
    // A nine-byte ack takes 18 bytes on the wire: 126 symbols of FAST.
    let air: u64 = 9_600 + 2_880 + 125 * 960 + 720;
    let x = t.send_text("hi", 1_000_000_000).unwrap().transfer;
    assert_eq!(
        x.ack_wait(),
        air * 1_000_000_000 / 48_000 + TURNAROUND_S + REPLY_GUARD_S + 2_000_000_000
    );
    let h = t.discover(1_000_000_000).unwrap().handshake;
    // Five bytes of hello take 18 as well.
    assert_eq!(h.reply_wait(), air * 1_000_000_000 / 48_000 + TURNAROUND_S + 2_000_000_000);
}

fn handshake(id: u16) -> (Handshake, Vec<String>) {
    let d = running(id).discover(0).unwrap();
    (d.handshake, show(&d.events))
}

#[test]
fn a_handshake_ends_with_the_first_answer() {
    let (mut h, notes) = handshake(0xA1A1);
    assert_eq!(notes, vec!["Info: handshake 1/3: hello from A1A1"]);
    assert_eq!(parse(&h.frame()), Some(Frame::Ctrl(CtrlFrame {
        kind: T_HELLO,
        src: 0xA1A1,
        dst: BROADCAST,
        msg_id: 0,
        frag_idx: 0,
    })));
    h.sent();
    let reply = CtrlFrame { kind: T_HELLO_ACK, src: 0xB2B2, dst: 0xA1A1, msg_id: 0, frag_idx: 0 };
    assert_eq!(
        show(&h.on_ctrl(&CtrlFrame { dst: BROADCAST, ..reply })),
        vec!["Warn: ignored control frame 0x11 from B2B2"]
    );
    assert_eq!(
        show(&h.on_ctrl(&CtrlFrame { kind: T_ACK, ..reply })),
        vec!["Warn: ignored control frame 0x12 from B2B2"]
    );
    assert_eq!(h.phase(), Phase::Await);
    assert_eq!(show(&h.on_ctrl(&reply)), vec!["Info: peer B2B2 answered", "peer B2B2"]);
    assert_eq!((h.phase(), h.peer()), (Phase::Done, 0xB2B2));
}

#[test]
fn a_handshake_gives_up_after_three_hellos() {
    let (mut h, _) = handshake(0xA1A1);
    h.sent();
    assert_eq!(show(&h.on_timeout()), vec!["Info: handshake 2/3: hello from A1A1"]);
    h.sent();
    assert_eq!(show(&h.on_timeout()), vec!["Info: handshake 3/3: hello from A1A1"]);
    h.sent();
    assert!(show(&h.on_timeout()).is_empty());
    assert_eq!((h.phase(), h.peer()), (Phase::Done, BROADCAST));
}

#[test]
fn a_file_goes_out_behind_its_name() {
    let mut t = running(1);
    let x = t.send_file("a.bin", &[1, 2, 3], 0).unwrap().transfer;
    let Some(Frame::Data { hdr, payload }) = parse(&x.frame()) else { panic!("no data frame") };
    assert_eq!(hdr.kind, T_FILE);
    let (meta, data) = acoustic_modem::framing::decode_file_blob(&payload).unwrap();
    assert_eq!((meta.name.as_str(), meta.size, data), ("a.bin", 3, vec![1, 2, 3]));
}

#[test]
fn a_gap_follows_each_fragment() {
    assert_eq!(FRAGMENT_GAP, 150_000_000);
    let mut t = running(0xA1A1);
    let mut x = transfer(&mut t, &"m".repeat(60));
    assert_eq!(x.gap(), 0);
    x.sent();
    assert_eq!(x.gap(), 0);
    x.on_ctrl(&ack(0xC3C3, 0xFFFF, 1, 0));
    assert_eq!(x.gap(), 0);
    x.on_timeout();
    assert_eq!(x.gap(), 0);
    x.sent();
    x.on_ctrl(&ack(0xB2B2, 0xA1A1, 1, 0));
    assert_eq!(x.gap(), FRAGMENT_GAP);
    for _ in 0..4 {
        x.sent();
        assert_eq!(x.gap(), 0);
        x.on_timeout();
        assert_eq!(x.gap(), 0);
    }
    assert_eq!(x.phase(), Phase::Failed);

    let mut c = t.config();
    c.arq = false;
    t.update_config(c);
    let mut x = transfer(&mut t, &"m".repeat(60));
    x.sent();
    assert_eq!((x.phase(), x.gap()), (Phase::Send, FRAGMENT_GAP));
    x.sent();
    assert_eq!((x.phase(), x.gap()), (Phase::Done, FRAGMENT_GAP));
}

use acoustic_modem::framing::{encode_file_meta, FragHeader, BROADCAST, T_FILE, T_TEXT};
use acoustic_modem::reassembly::{Reassembler, REASM_TIMEOUT};
use acoustic_modem::trx::{Event, Level};

const S: u64 = 1_000_000_000;

fn hdr(kind: u8, src: u16, msg_id: u16, frag_idx: u16, frag_total: u16) -> FragHeader {
    FragHeader { kind, ack_req: true, src, dst: BROADCAST, msg_id, frag_idx, frag_total }
}

fn show(events: &[Event]) -> Vec<String> {
    events
        .iter()
        .map(|e| match e {
            Event::Log(l, t) => format!("{l:?}: {t}"),
            Event::Progress { pct, note } => format!("{pct}% {note}"),
            Event::Text(t) => format!("text {t}"),
            Event::File { meta, data } => format!("file {} {} {data:?}", meta.name, meta.size),
            Event::PeerChanged(id) => format!("peer {id:04X}"),
        })
        .collect()
}

fn arrive(r: &mut Reassembler, h: FragHeader, frag: &str, now: u64) -> Vec<String> {
    show(&r.reassemble(&h, frag.as_bytes().to_vec(), now))
}

#[test]
fn a_message_is_delivered_when_its_last_fragment_arrives() {
    let mut r = Reassembler::new();
    assert_eq!(arrive(&mut r, hdr(T_TEXT, 1, 5, 2, 3), "c", 0), vec!["33% RX 1/3"]);
    assert_eq!(arrive(&mut r, hdr(T_TEXT, 1, 5, 0, 3), "a", S), vec!["66% RX 2/3"]);
    assert_eq!(
        arrive(&mut r, hdr(T_TEXT, 1, 5, 1, 3), "b", 2 * S),
        vec!["100% RX 3/3", "text abc"]
    );
}

#[test]
fn a_resent_fragment_replaces_itself() {
    let mut r = Reassembler::new();
    arrive(&mut r, hdr(T_TEXT, 1, 5, 0, 2), "old", 0);
    assert_eq!(arrive(&mut r, hdr(T_TEXT, 1, 5, 0, 2), "new", 0), vec!["50% RX 1/2"]);
    assert_eq!(
        arrive(&mut r, hdr(T_TEXT, 1, 5, 1, 2), "!", 0),
        vec!["100% RX 2/2", "text new!"]
    );
}

#[test]
fn a_delivered_message_is_not_delivered_again() {
    let mut r = Reassembler::new();
    arrive(&mut r, hdr(T_TEXT, 1, 0xAB, 0, 1), "once", 0);
    assert_eq!(
        arrive(&mut r, hdr(T_TEXT, 1, 0xAB, 0, 1), "once", REASM_TIMEOUT),
        vec!["Info: duplicate frag 1/1 of msg 00AB -- re-acked, not re-delivered"]
    );
    // The memory of it ends.
    assert_eq!(
        arrive(&mut r, hdr(T_TEXT, 1, 0xAB, 0, 1), "once", REASM_TIMEOUT + 1),
        vec!["100% RX 1/1", "text once"]
    );
}

#[test]
fn senders_and_messages_are_kept_apart() {
    let mut r = Reassembler::new();
    arrive(&mut r, hdr(T_TEXT, 1, 5, 0, 2), "A", 0);
    arrive(&mut r, hdr(T_TEXT, 2, 5, 0, 2), "B", 0);
    arrive(&mut r, hdr(T_TEXT, 1, 6, 0, 2), "C", 0);
    assert_eq!(arrive(&mut r, hdr(T_TEXT, 2, 5, 1, 2), "b", 0)[1], "text Bb");
    assert_eq!(arrive(&mut r, hdr(T_TEXT, 1, 6, 1, 2), "c", 0)[1], "text Cc");
    assert_eq!(arrive(&mut r, hdr(T_TEXT, 1, 5, 1, 2), "a", 0)[1], "text Aa");
}

#[test]
fn a_wrong_total_is_not_spliced_in() {
    let mut r = Reassembler::new();
    arrive(&mut r, hdr(T_TEXT, 1, 5, 0, 2), "a", 0);
    assert_eq!(
        arrive(&mut r, hdr(T_TEXT, 1, 5, 2, 3), "x", 0),
        vec!["Warn: frag 3 of msg 0005 claims 3 fragments, not 2 -- ignored"]
    );
    assert_eq!(arrive(&mut r, hdr(T_TEXT, 1, 5, 1, 2), "b", 0)[1], "text ab");
    // Nor does it keep its message alive.
    arrive(&mut r, hdr(T_TEXT, 1, 6, 0, 2), "a", 0);
    arrive(&mut r, hdr(T_TEXT, 1, 6, 0, 3), "x", REASM_TIMEOUT);
    assert_eq!(
        arrive(&mut r, hdr(T_TEXT, 1, 6, 1, 2), "b", REASM_TIMEOUT + 1),
        vec!["50% RX 1/2"]
    );
}

#[test]
fn a_stalled_message_is_forgotten() {
    let mut r = Reassembler::new();
    arrive(&mut r, hdr(T_TEXT, 1, 5, 0, 2), "a", 0);
    assert_eq!(
        arrive(&mut r, hdr(T_TEXT, 1, 5, 1, 2), "b", REASM_TIMEOUT + 1),
        vec!["50% RX 1/2"]
    );
    // Each fragment keeps its message alive.
    assert_eq!(
        arrive(&mut r, hdr(T_TEXT, 1, 5, 0, 2), "a", 2 * REASM_TIMEOUT),
        vec!["100% RX 2/2", "text ab"]
    );
}

#[test]
fn the_first_fragment_says_what_kind_of_message_it_is() {
    let mut r = Reassembler::new();
    let mut blob = encode_file_meta("f.bin", 3);
    blob.extend_from_slice(&[7, 8, 9]);
    let (a, b) = blob.split_at(4);
    assert!(show(&r.reassemble(&hdr(T_FILE, 1, 5, 0, 2), a.to_vec(), 0))[0].contains("RX 1/2"));
    assert_eq!(
        show(&r.reassemble(&hdr(T_TEXT, 1, 5, 1, 2), b.to_vec(), 0)),
        vec!["100% RX 2/2", "file f.bin 3 [7, 8, 9]"]
    );
}

#[test]
fn levels_are_told_apart() {
    let mut r = Reassembler::new();
    let e = r.reassemble(&hdr(0x55, 1, 5, 0, 1), vec![1], 0);
    assert!(matches!(&e[1], Event::Log(Level::Warn, t) if t == "unknown message type 0x55"));
}

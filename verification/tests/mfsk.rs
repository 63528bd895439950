use acoustic_modem::mfsk::{bits_to_symbols, read_window, symbols_to_bits, winner};
use acoustic_modem::packet::{build_frame_bits, decode_frame};
use acoustic_modem::profile::profile;

#[test]
fn symbols_are_packed_from_the_top_bit() {
    assert_eq!(bits_to_symbols(&[1, 0, 1, 1, 0, 1], 2), vec![2, 3, 1]);
    assert_eq!(bits_to_symbols(&[1, 0, 1, 1, 0, 1], 3), vec![5, 5]);
    // The last symbol is filled up with zeros.
    assert_eq!(bits_to_symbols(&[1, 1, 1], 2), vec![3, 2]);
    assert!(bits_to_symbols(&[], 2).is_empty());
    assert_eq!(symbols_to_bits(&[2, 3, 1], 2), vec![1, 0, 1, 1, 0, 1]);
}

#[test]
fn symbols_carry_their_bits() {
    let bits: Vec<u8> = (0..96).map(|i| ((i * 7 + i / 3) % 2) as u8).collect();
    for per_symbol in 1..5 {
        let back = symbols_to_bits(&bits_to_symbols(&bits, per_symbol), per_symbol);
        assert_eq!(back[..bits.len()], bits);
        assert!(back[bits.len()..].iter().all(|&b| b == 0));
    }
}

#[test]
fn a_frame_survives_one_wrong_symbol() {
    let bits = build_frame_bits(b"tone", 0);
    let symbols = bits_to_symbols(&bits, 2);
    for at in 0..symbols.len() {
        for wrong in 0..4 {
            let mut heard = symbols.clone();
            heard[at] = wrong;
            let r = decode_frame(&symbols_to_bits(&heard, 2), 0, 0, 4);
            assert_eq!(r.payload, b"tone", "symbol {at} heard as {wrong}");
        }
    }
}

#[test]
fn only_whole_reads_inside_the_audio_are_granted() {
    let p = profile(0).unwrap();
    // Two symbols: one step of 960 samples and 720 of the last symbol.
    assert_eq!(read_window(1_680, 0, 2, &p), Some(0));
    assert_eq!(read_window(1_679, 0, 2, &p), None);
    assert_eq!(read_window(1_780, 100, 2, &p), Some(100));
    assert_eq!(read_window(1_780, 101, 2, &p), None);
    assert_eq!(read_window(1_680, -1, 1, &p), None);
    assert_eq!(read_window(1_680, 0, 0, &p), None);
}

#[test]
fn the_loudest_tone_wins_and_the_last_of_equals() {
    assert_eq!(winner(&[1, 5, 3, 2]), 1);
    assert_eq!(winner(&[5, 5, 3, 5]), 3);
    assert_eq!(winner(&[-4, -2, -3]), 1);
    assert_eq!(winner(&[0]), 0);
}

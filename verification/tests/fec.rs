use acoustic_modem::fec::{
    crc16, crc16_init, deinterleave, hamming_bit_count, hamming_decode, hamming_encode, interleave,
    BLOCK_BITS, INTERLEAVE_BYTES, INTERLEAVE_CW,
};

#[test]
fn crc_known_vector() {
    // The canonical CCITT-FALSE check value.
    assert_eq!(crc16(b"123456789"), 0x29B1);
}

#[test]
fn crc_of_nothing_is_the_initial_register() {
    assert_eq!(crc16(b""), 0xFFFF);
    assert_eq!(crc16_init(b"", 0x1D0F), 0x1D0F);
}

#[test]
fn crc_can_be_fed_in_pieces() {
    let whole = crc16(b"123456789");
    for cut in 0..=9 {
        let (a, b) = b"123456789".split_at(cut);
        assert_eq!(crc16_init(b, crc16(a)), whole, "cut at {cut}");
    }
}

#[test]
fn hamming_round_trips() {
    let data: Vec<u8> = (0u8..=255).collect();
    assert_eq!(hamming_decode(&hamming_encode(&data)), data);
}

#[test]
fn hamming_codewords_are_the_tabled_ones() {
    // 0xB = 1011: p1 = 0, p2 = 1, p3 = 0.
    assert_eq!(hamming_encode(&[0xB0])[..7], [0, 1, 1, 0, 0, 1, 1]);
    assert_eq!(hamming_encode(&[0xB0])[7..], [0; 7]);
    assert_eq!(hamming_encode(&[0x0F])[7..], [1; 7]);
    assert_eq!(hamming_bit_count(6), 84);
    assert!(hamming_encode(&[]).is_empty());
}

#[test]
fn hamming_corrects_one_bit_per_codeword() {
    let data = b"correct me".to_vec();
    let clean = hamming_encode(&data);
    for flip in 0..clean.len() {
        let mut bad = clean.clone();
        bad[flip] ^= 1;
        assert_eq!(hamming_decode(&bad), data, "flipping bit {flip}");
    }
}

#[test]
fn hamming_corrects_every_codeword_at_once() {
    let data = b"all at once".to_vec();
    for bit in 0..7 {
        let mut bad = hamming_encode(&data);
        for cw in 0..bad.len() / 7 {
            bad[cw * 7 + (bit + cw) % 7] ^= 1;
        }
        assert_eq!(hamming_decode(&bad), data);
    }
}

#[test]
fn a_trailing_half_byte_is_not_decoded() {
    let mut bits = hamming_encode(b"ab");
    bits.truncate(14 + 13);
    assert_eq!(hamming_decode(&bits), b"a");
    bits.truncate(6);
    assert!(hamming_decode(&bits).is_empty());
}

#[test]
fn interleaver_round_trips() {
    let bits: Vec<u8> = (0..BLOCK_BITS * 3).map(|i| (i % 2) as u8).collect();
    assert_eq!(deinterleave(&interleave(&bits)), bits);
}

#[test]
fn the_interleaver_reads_out_columns() {
    let bits: Vec<u8> = (0..BLOCK_BITS as u8).collect();
    let wire = interleave(&bits);
    assert_eq!(wire[..12], [0, 7, 14, 21, 28, 35, 42, 49, 56, 63, 70, 77]);
    assert_eq!(wire[12], 1);
    assert_eq!(wire[83], 83);
}

#[test]
fn the_interleaver_truncates_to_whole_blocks() {
    let bits = vec![1u8; BLOCK_BITS + 10];
    assert_eq!(interleave(&bits).len(), BLOCK_BITS);
    assert_eq!(deinterleave(&bits).len(), BLOCK_BITS);
    assert!(interleave(&bits[..BLOCK_BITS - 1]).is_empty());
    assert_eq!(INTERLEAVE_BYTES, 6);
}

#[test]
fn interleaving_survives_a_burst() {
    // A burst as long as the interleaver is deep lands one bit in each
    // codeword, which is exactly what Hamming can repair.
    let data = b"burst test!!".to_vec(); // 12 bytes = two blocks
    let mut wire = interleave(&hamming_encode(&data));
    for bit in wire.iter_mut().take(INTERLEAVE_CW) {
        *bit ^= 1;
    }
    assert_eq!(hamming_decode(&deinterleave(&wire)), data);
}

#[test]
fn a_burst_is_repaired_wherever_it_falls() {
    let data = b"burst test!!".to_vec();
    let clean = interleave(&hamming_encode(&data));
    for start in 0..clean.len() - INTERLEAVE_CW {
        let mut wire = clean.clone();
        for bit in wire.iter_mut().skip(start).take(INTERLEAVE_CW) {
            *bit ^= 1;
        }
        assert_eq!(hamming_decode(&deinterleave(&wire)), data, "burst at {start}");
    }
}

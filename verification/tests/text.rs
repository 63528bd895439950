use acoustic_modem::band::BandSet;
use acoustic_modem::event::{deliver, Event};
use acoustic_modem::framing::{T_FILE, T_TEXT};
use acoustic_modem::text::{
    push_bar, push_decimal, push_double, push_fixed, push_hex4, push_hex_byte, push_left_aligned,
    push_right_aligned, round_half_even, to_double, to_whole_double,
};

fn with(f: impl Fn(&mut String)) -> String {
    let mut s = "=".to_string();
    f(&mut s);
    s
}

#[test]
fn numbers_are_written_in_decimal() {
    for n in [0u128, 7, 10, 48_000, u128::MAX] {
        assert_eq!(with(|s| push_decimal(s, n)), format!("={n}"));
    }
}

#[test]
fn ids_and_kinds_are_written_in_hex() {
    for n in [0u16, 0xB, 0xA1B2, 0xFFFF] {
        assert_eq!(with(|s| push_hex4(s, n)), format!("={n:04X}"));
    }
    for n in [0u8, 0x0C, 0x7F, 0xFF] {
        assert_eq!(with(|s| push_hex_byte(s, n)), format!("={n:#04x}"));
    }
}

#[test]
fn fractions_round_half_to_even() {
    assert_eq!(round_half_even(5, 10), 0);
    assert_eq!(round_half_even(15, 10), 2);
    assert_eq!(round_half_even(25, 10), 2);
    assert_eq!(round_half_even(26, 10), 3);
    assert_eq!(round_half_even(7, 1), 7);
}

#[test]
fn fixed_point_numbers_have_their_places() {
    assert_eq!(with(|s| push_fixed(s, 18_200_000, 1_000, 3)), "=18.200");
    assert_eq!(with(|s| push_fixed(s, 1_234, 100, 1)), "=1.2");
    assert_eq!(with(|s| push_fixed(s, 996, 1_000, 0)), "=1");
    assert_eq!(with(|s| push_fixed(s, -1_250, 100, 1)), "=-1.2");
    assert_eq!(with(|s| push_fixed(s, 5, 10, 2)), "=0.00");
}

#[test]
fn fractions_are_shown_as_the_doubles_they_become() {
    for n in (0..100_000i128).chain((1 << 60)..(1 << 60) + 100) {
        let v = n as f64 / 48_000.0;
        let n = to_whole_double(n as u128) as i128;
        assert_eq!(with(|s| push_double(s, n, 48_000, 2)), format!("={v:.2}"));
        assert_eq!(with(|s| push_double(s, n, 48_000, 1)), format!("={v:.1}"));
    }
    for hz in (0..20_000i128).map(|k| 500 * k) {
        let khz = hz as f64 / 1000.0 / 1000.0;
        assert_eq!(with(|s| push_double(s, hz, 1_000_000, 2)), format!("={khz:.2}"));
        assert_eq!(with(|s| push_double(s, hz, 1_000_000, 3)), format!("={khz:.3}"));
    }
    assert_eq!(with(|s| push_double(s, -250_000, 1_000_000, 3)), "=-0.250");
    assert_eq!(with(|s| push_double(s, 133_200, 48_000, 2)), "=2.77");
}

#[test]
fn whole_numbers_become_doubles() {
    for n in [0u128, 1, (1 << 53) - 1, 1 << 53, (1 << 53) + 1, (1 << 53) + 3, u64::MAX as u128, 3 << 100] {
        assert_eq!(to_whole_double(n), n as f64 as u128);
    }
    assert_eq!(to_double(0, 7), (0, 1));
    let (m, unit) = to_double(1, 3);
    assert_eq!(m as f64 / unit as f64, 1.0 / 3.0);
}

#[test]
fn columns_are_filled_with_spaces() {
    assert_eq!(with(|s| push_left_aligned(s, "FAST", 8)), "=FAST    ");
    assert_eq!(with(|s| push_left_aligned(s, "LONGNAME!", 8)), "=LONGNAME!");
    assert_eq!(with(|s| push_right_aligned(s, "-3.1", 6)), "=  -3.1");
    assert_eq!(with(|s| push_right_aligned(s, "-123.45", 6)), "=-123.45");
    assert_eq!(with(|s| push_bar(s, 3)), "=###");
}

#[test]
fn broken_utf8_is_repaired_on_delivery() {
    assert!(matches!(deliver(T_TEXT, b"caf\xC3\xA9"), Event::Text(t) if t == "caf\u{e9}"));
    assert!(matches!(deliver(T_TEXT, b"a\xFFb"), Event::Text(t) if t == "a\u{FFFD}b"));
    assert!(matches!(deliver(T_TEXT, b""), Event::Text(t) if t.is_empty()));
}

#[test]
fn broken_messages_are_reported() {
    assert!(matches!(deliver(T_FILE, b"\x00"), Event::Log(_, t) if t == "file message was malformed"));
    assert!(matches!(deliver(0x33, b"abc"), Event::Log(_, t) if t == "unknown message type 0x33"));
}

#[test]
fn an_unknown_name_is_quoted() {
    let mut set = BandSet::default();
    assert_eq!(
        set.set_base_freq("N\"O\n", 3_000_000).unwrap_err(),
        "unknown band \"N\\\"O\\n\""
    );
}

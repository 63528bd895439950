//! Framing and whole-packet encode/decode.
//!
//! On the wire: `[CHIRP][gap][MARKER 2B][HEADER 4B][PAYLOAD][CRC16]`, with
//! everything after the gap Hamming(7,4)-coded and interleaved.
//!
//! The header carries the payload length *and* the profile id, so a receiver
//! adapts per frame: it decodes whatever profile the sender used, regardless of
//! its own setting.
use crate::band::Band;
use crate::fec;
use crate::fec::{
    crc16, deinterleave, hamming_bit_count, hamming_decode, hamming_encode, interleave,
    INTERLEAVE_BYTES,
};
use crate::framing;
use crate::framing::{push_be16, read_be16};
use crate::mfsk;
use crate::mfsk::bits_to_symbols;
use crate::ms_samples;
use crate::profile;
use crate::profile::Profile;
use crate::text;
use crate::text::{push_decimal, round_half_even};
use crate::{GAP_MS, LEADIN_MS, TAIL_MS};
use vstd::prelude::*;
use vstd::slice::slice_subrange;
use vstd::slice::slice_to_vec;

verus! {

pub const PREAMBLE_MARKER: [u8; 2] = [0xAA, 0x55];

/// marker + (profile, len_hi, len_lo, header_crc)
pub const HEADER_BODY_BYTES: usize = 6;

/// Header body plus the frame CRC-16.
pub const FRAME_OVERHEAD_BYTES: usize = HEADER_BODY_BYTES + 2;

// --------------------------------------------------------------------------- //
// Sizes
// --------------------------------------------------------------------------- //
/// `a / b`, rounded up.
pub open spec fn div_up(a: int, b: int) -> int {
    (a + b - 1) / b
}

/// Bytes of a frame body that fills whole interleaver blocks.
pub open spec fn padded_len(payload_len: int) -> int {
    div_up(payload_len + FRAME_OVERHEAD_BYTES, INTERLEAVE_BYTES as int) * INTERLEAVE_BYTES
}

/// Symbols that the header takes.
pub open spec fn header_symbol_count(p: Profile) -> int {
    div_up(14 * HEADER_BODY_BYTES, p.bits_per_symbol as int)
}

/// Symbols that a frame takes.
pub open spec fn frame_symbol_count(payload_len: int, p: Profile) -> int {
    div_up(14 * padded_len(payload_len), p.bits_per_symbol as int)
}

/// Samples from the start of the first of `n` symbols to the end of the last.
pub open spec fn symbols_span(n: int, p: Profile) -> int {
    if n == 0 {
        0
    } else {
        (n - 1) * p.step_len() + p.symbol_len()
    }
}

/// Samples from the start of a frame's first symbol to the end of its last.
pub open spec fn frame_sample_count(payload_len: int, p: Profile) -> int {
    symbols_span(frame_symbol_count(payload_len, p), p)
}

/// Samples of a whole packet, lead-in and tail silence included.
pub open spec fn packet_sample_count(payload_len: int, p: Profile, band: Band) -> int {
    crate::samples_in(LEADIN_MS + GAP_MS + TAIL_MS) + crate::samples_in(band.chirp_ms as int)
        + frame_sample_count(payload_len, p)
}

/// `a / b`, rounded up.
pub(crate) fn ceil_div(a: usize, b: usize) -> (q: usize)
    requires
        0 < b,
    ensures
        q == div_up(a as int, b as int),
{
    let q: usize = a / b;
    let r: usize = a % b;
    proof {
        vstd::arithmetic::div_mod::lemma_fundamental_div_mod(a as int, b as int);
        if r == 0 {
            assert((a + b - 1) / (b as int) == q) by (nonlinear_arith)
                requires
                    0 < b,
                    a == b * q,
            ;
        } else {
            assert((a + b - 1) / (b as int) == q + 1) by (nonlinear_arith)
                requires
                    0 < r < b,
                    a == b * q + r,
            ;
            assert(q < usize::MAX) by (nonlinear_arith)
                requires
                    0 < r < b,
                    a == b * q + r,
                    a <= usize::MAX,
            ;
        }
    }
    if r == 0 {
        q
    } else {
        q + 1
    }
}

/// The padded length in terms of what the last block has over.
pub proof fn lemma_padded_len(payload_len: int)
    requires
        0 <= payload_len,
    ensures
        padded_len(payload_len) % 6 == 0,
        payload_len + 8 <= padded_len(payload_len) < payload_len + 14,
        ({
            let total = payload_len + 8;
            padded_len(payload_len) == if total % 6 == 0 {
                total
            } else {
                total + 6 - total % 6
            }
        }),
{
    assert(INTERLEAVE_BYTES == 6);
    let total = payload_len + 8;
    assert(padded_len(payload_len) == (total + 5) / 6 * 6);
}

/// Frame body rounded up to a whole number of interleaver blocks.
pub fn padded_body_bytes(payload_len: usize) -> (n: usize)
    requires
        padded_len(payload_len as int) <= usize::MAX,
    ensures
        n == padded_len(payload_len as int),
{
    proof {
        lemma_padded_len(payload_len as int);
    }
    let total: usize = payload_len + FRAME_OVERHEAD_BYTES;
    let over: usize = total % INTERLEAVE_BYTES;
    if over == 0 {
        total
    } else {
        total + (INTERLEAVE_BYTES - over)
    }
}

pub fn header_symbols(p: &Profile) -> (n: usize)
    requires
        0 < p.bits_per_symbol,
    ensures
        n == header_symbol_count(*p),
{
    ceil_div(hamming_bit_count(HEADER_BODY_BYTES), p.bits_per_symbol as usize)
}

pub fn frame_symbols(payload_len: usize, p: &Profile) -> (n: usize)
    requires
        0 < p.bits_per_symbol,
        14 * padded_len(payload_len as int) <= usize::MAX,
    ensures
        n == frame_symbol_count(payload_len as int, *p),
{
    ceil_div(hamming_bit_count(padded_body_bytes(payload_len)), p.bits_per_symbol as usize)
}

/// Samples from the start of the first of `n` symbols to the end of the last.
pub fn span_samples(n: usize, p: &Profile) -> (samples: usize)
    requires
        symbols_span(n as int, *p) <= usize::MAX,
        p.step_len() <= usize::MAX,
    ensures
        samples == symbols_span(n as int, *p),
{
    if n == 0 {
        0
    } else {
        assert(0 <= (n - 1) * p.step_len()) by (nonlinear_arith)
            requires
                1 <= n,
                0 <= p.step_len(),
        ;
        (n - 1) * p.step_samples() + p.symbol_samples()
    }
}

pub fn frame_samples(payload_len: usize, p: &Profile) -> (n: usize)
    requires
        0 < p.bits_per_symbol,
        14 * padded_len(payload_len as int) <= usize::MAX,
        p.step_len() <= usize::MAX,
        frame_sample_count(payload_len as int, *p) <= usize::MAX,
    ensures
        n == frame_sample_count(payload_len as int, *p),
{
    span_samples(frame_symbols(payload_len, p), p)
}

/// No frame of any profile outgrows a word.
pub proof fn lemma_table_sizes(id: int, payload_len: int)
    requires
        profile::profile_of(id) is Some,
        0 <= payload_len <= 0xFFFF,
    ensures
        ({
            let p = profile::profile_of(id).unwrap();
            &&& p.bits_per_symbol == 2
            &&& 0 < p.symbol_len() <= p.step_len() <= 2880
            &&& 14 * padded_len(payload_len) <= 917_770
            &&& header_symbol_count(p) == 42
            &&& 0 <= symbols_span(42, p) <= 120_960
            &&& 0 < frame_symbol_count(payload_len, p) <= 458_885
            &&& 0 <= frame_sample_count(payload_len, p) <= 1_321_588_800
        }),
{
    lemma_padded_len(payload_len);
    let p = profile::profile_of(id).unwrap();
    let n = frame_symbol_count(payload_len, p);
    let step = p.step_len();
    assert(n == (14 * padded_len(payload_len) + 1) / 2);
    assert((n - 1) * step <= 458_884 * 2880) by (nonlinear_arith)
        requires
            0 < n <= 458_885,
            0 < step <= 2880,
    ;
    assert(0 <= (n - 1) * step) by (nonlinear_arith)
        requires
            0 < n,
            0 < step,
    ;
}

/// Samples of a whole packet, lead-in and tail silence included.
pub fn packet_samples(payload_len: usize, p: &Profile, band: &Band) -> (n: u64)
    requires
        0 < p.bits_per_symbol,
        14 * padded_len(payload_len as int) <= usize::MAX,
        p.step_len() <= usize::MAX,
        frame_sample_count(payload_len as int, *p) <= usize::MAX,
        packet_sample_count(payload_len as int, *p, *band) <= u64::MAX,
    ensures
        n == packet_sample_count(payload_len as int, *p, *band),
{
    let fixed: u64 = ms_samples(LEADIN_MS + GAP_MS + TAIL_MS) as u64 + band.chirp_samples() as u64;
    fixed + frame_samples(payload_len, p) as u64
}

/// The nanosecond nearest to the time that so many samples take.
pub open spec fn nearest_ns(samples: int) -> int {
    text::rounded((samples * 1_000_000_000) as nat, 48_000) as int
}

/// No whole nanosecond is nearer to the time that so many samples take.
pub proof fn times_are_near(samples: int)
    requires
        0 <= samples,
    ensures
        -24_000 <= 48_000 * nearest_ns(samples) - 1_000_000_000 * samples <= 24_000,
{
    text::rounding_goes_to_the_nearest((samples * 1_000_000_000) as nat, 48_000);
}

/// Wall-clock time one packet occupies, including lead-in and tail silence, to the
/// nearest nanosecond.
pub fn packet_duration_s(payload_len: usize, p: &Profile, band: &Band) -> (ns: u64)
    requires
        0 < p.bits_per_symbol,
        14 * padded_len(payload_len as int) <= usize::MAX,
        p.step_len() <= usize::MAX,
        frame_sample_count(payload_len as int, *p) <= usize::MAX,
        62_500 * packet_sample_count(payload_len as int, *p, *band) <= u64::MAX,
    ensures
        ns == nearest_ns(packet_sample_count(payload_len as int, *p, *band)),
{
    let thirds: u64 = packet_samples(payload_len, p, band) * 62_500;
    if thirds % 3 == 2 {
        thirds / 3 + 1
    } else {
        thirds / 3
    }
}

/// Samples from the start of the chirp to the first data symbol.
pub fn data_offset_in_packet(band: &Band) -> (n: usize)
    requires
        crate::samples_in(band.chirp_ms as int) + crate::samples_in(GAP_MS as int) <= usize::MAX,
    ensures
        n == crate::samples_in(band.chirp_ms as int) + crate::samples_in(GAP_MS as int),
{
    band.chirp_samples() + ms_samples(GAP_MS)
}

// --------------------------------------------------------------------------- //
// Encoding
// --------------------------------------------------------------------------- //
/// The two bytes every frame starts with.
pub open spec fn marker() -> Seq<u8> {
    seq![0xAAu8, 0x55u8]
}

/// Profile id, payload length and their one-byte checksum. Only the low byte of
/// the id and the low two bytes of the length fit.
pub open spec fn header_bytes(payload_len: int, id: int) -> Seq<u8> {
    let fields = seq![
        (id % 256) as u8,
        (payload_len / 256 % 256) as u8,
        (payload_len % 256) as u8,
    ];
    fields.push((fec::crc_of(fields, 0xFFFF) % 256) as u8)
}

/// Everything the frame CRC covers.
pub open spec fn checked_bytes(payload: Seq<u8>, id: int) -> Seq<u8> {
    marker() + header_bytes(payload.len() as int, id) + payload
}

/// The frame with its CRC, filled up with zeros to whole interleaver blocks.
pub open spec fn frame_body(payload: Seq<u8>, id: int) -> Seq<u8> {
    let body = checked_bytes(payload, id) + framing::be16(
        fec::crc_of(checked_bytes(payload, id), 0xFFFF),
    );
    body + Seq::new((padded_len(payload.len() as int) - body.len()) as nat, |i: int| 0u8)
}

/// The bits that go on the wire.
pub open spec fn frame_bits(payload: Seq<u8>, id: int) -> Seq<u8> {
    fec::interleaved(fec::hamming_code(frame_body(payload, id)))
}

pub fn build_frame_bits(payload: &[u8], profile_id: usize) -> (bits: Vec<u8>)
    requires
        14 * padded_len(payload@.len() as int) <= usize::MAX,
    ensures
        bits@ == frame_bits(payload@, profile_id as int),
{
    let length: usize = payload.len();
    let mut header: Vec<u8> = Vec::with_capacity(4);
    header.push((profile_id % 256) as u8);
    header.push((length / 256 % 256) as u8);
    header.push((length % 256) as u8);
    assert(header@ =~= seq![
        (profile_id as int % 256) as u8,
        (length as int / 256 % 256) as u8,
        (length as int % 256) as u8,
    ]);
    let check: u8 = (crc16(header.as_slice()) % 256) as u8;
    header.push(check);
    assert(header@ =~= header_bytes(length as int, profile_id as int));
    let mut body: Vec<u8> = Vec::new();
    body.push(PREAMBLE_MARKER[0]);
    body.push(PREAMBLE_MARKER[1]);
    body.extend_from_slice(header.as_slice());
    body.extend_from_slice(payload);
    assert(body@ =~= checked_bytes(payload@, profile_id as int));
    let crc: u16 = crc16(body.as_slice());
    push_be16(&mut body, crc);
    let ghost packed = body@;
    proof {
        lemma_padded_len(length as int);
    }
    // Fill the last interleaver block, so the receiver can de-interleave it.
    while body.len() % INTERLEAVE_BYTES != 0
        invariant
            packed.len() == length + 8,
            packed.len() <= body@.len() <= padded_len(length as int),
            padded_len(length as int) % 6 == 0,
            padded_len(length as int) < packed.len() + 6,
            body@ =~= packed + Seq::new((body@.len() - packed.len()) as nat, |i: int| 0u8),
        decreases padded_len(length as int) - body@.len(),
    {
        body.push(0);
    }
    assert(body@.len() == padded_len(length as int));
    assert(body@ =~= frame_body(payload@, profile_id as int));
    interleave(hamming_encode(body.as_slice()).as_slice())
}

/// A packet as it goes on the air: silence, chirp preamble, modulated frame,
/// silence. Lengths are in samples.
pub struct PacketPlan {
    pub lead_in: usize,
    pub chirp: usize,
    pub gap: usize,
    /// The tones of the frame, one after the other.
    pub symbols: Vec<usize>,
    /// Length of each tone, and of the silence behind it.
    pub symbol: usize,
    pub guard: usize,
    pub tail: usize,
}

/// What a sample of a packet is part of.
pub enum Sound {
    Silence,
    /// The chirp, so many samples behind its start.
    Chirp(int),
    /// A tone, so many samples behind its start.
    Tone(usize, int),
}

impl PacketPlan {
    /// Where the tone of symbol `s` starts.
    pub open spec fn symbol_at(self, s: int) -> int {
        self.lead_in + self.chirp + self.gap + s * (self.symbol + self.guard)
    }

    /// How many samples the packet takes.
    pub open spec fn samples(self) -> int {
        self.symbol_at(self.symbols@.len() as int) + self.tail
    }

    /// What sample `i` of the packet is part of.
    pub open spec fn sound_at(self, i: int) -> Sound {
        let step = (self.symbol + self.guard) as int;
        let behind = i - self.symbol_at(0);
        if i < self.lead_in {
            Sound::Silence
        } else if i < self.lead_in + self.chirp {
            Sound::Chirp(i - self.lead_in)
        } else if i < self.symbol_at(0) || self.symbol_at(self.symbols@.len() as int) <= i {
            Sound::Silence
        } else if behind % step < self.symbol {
            Sound::Tone(self.symbols@[behind / step], behind % step)
        } else {
            Sound::Silence
        }
    }

    /// The plan of one packet: silence, the band's chirp, a gap, a tone for each symbol
    /// of the frame with its guard behind it, silence.
    pub open spec fn carries(self, payload: Seq<u8>, profile_id: int, band: Band) -> bool {
        let p = profile::profile_of(profile_id).unwrap();
        &&& self.lead_in == crate::samples_in(LEADIN_MS as int)
        &&& self.chirp == crate::samples_in(band.chirp_ms as int)
        &&& self.gap == crate::samples_in(GAP_MS as int)
        &&& self.symbols@ == mfsk::symbols_of(
            frame_bits(payload, profile_id),
            p.bits_per_symbol as int,
        )
        &&& self.symbol == p.symbol_len()
        &&& self.guard + p.symbol_len() == p.step_len()
        &&& self.tail == crate::samples_in(TAIL_MS as int)
        &&& self.symbols@.len() == frame_symbol_count(payload.len() as int, p)
        &&& forall|s: int| 0 <= s < self.symbols@.len() ==> #[trigger] self.symbols@[s] < 4
    }
}

/// Lay out one packet.
pub fn encode_packet(payload: &[u8], profile_id: usize, band: &Band) -> (plan: PacketPlan)
    requires
        profile::profile_of(profile_id as int) is Some,
        14 * padded_len(payload@.len() as int) <= usize::MAX,
    ensures
        plan.carries(payload@, profile_id as int, *band),
{
    let p = profile::profile(profile_id).unwrap();
    let bits = build_frame_bits(payload, profile_id);
    proof {
        frame_bits_fill_whole_blocks(payload@, profile_id as int);
        vstd::arithmetic::power2::lemma2_to64();
        mfsk::lemma_symbols_are_tones(bits@, 2);
    }
    PacketPlan {
        lead_in: ms_samples(LEADIN_MS),
        chirp: band.chirp_samples(),
        gap: ms_samples(GAP_MS),
        symbols: bits_to_symbols(bits.as_slice(), p.bits_per_symbol as usize),
        symbol: p.symbol_samples(),
        guard: p.guard_samples(),
        tail: ms_samples(TAIL_MS),
    }
}

// --------------------------------------------------------------------------- //
// Confidence
// --------------------------------------------------------------------------- //
/// A confidence of one. Confidences are counted in units of 2^-64, which hold every
/// double from 2^-12 up exactly.
pub const CONFIDENCE_ONE: u128 = 0x1_0000_0000_0000_0000;

/// A confidence as it is shown: the nearest whole number.
pub open spec fn confidence_text(c: u128) -> Seq<char> {
    text::decimal(text::rounded(c as nat, CONFIDENCE_ONE as nat))
}

/// Append a confidence.
pub fn push_confidence(s: &mut String, c: u128)
    ensures
        final(s)@ == old(s)@ + confidence_text(c),
{
    push_decimal(s, round_half_even(c, CONFIDENCE_ONE));
}

// --------------------------------------------------------------------------- //
// Decoding
// --------------------------------------------------------------------------- //
#[derive(Clone, Debug, PartialEq)]
pub struct DecodeResult {
    pub ok: bool,
    pub payload: Vec<u8>,
    pub profile_id: Option<usize>,
    pub reason: String,
    pub offset: isize,
    pub length: usize,
    /// How clear the signal was (see [`CONFIDENCE_ONE`]).
    pub confidence: u128,
}

/// A [`DecodeResult`] with its payload and its reason as sequences.
#[verifier::ext_equal]
pub struct DecodeView {
    pub ok: bool,
    pub payload: Seq<u8>,
    pub profile_id: Option<usize>,
    pub reason: Seq<char>,
    pub offset: isize,
    pub length: usize,
    pub confidence: u128,
}

impl View for DecodeResult {
    type V = DecodeView;

    open spec fn view(&self) -> DecodeView {
        DecodeView {
            ok: self.ok,
            payload: self.payload@,
            profile_id: self.profile_id,
            reason: self.reason@,
            offset: self.offset,
            length: self.length,
            confidence: self.confidence,
        }
    }
}

/// A failure, with why and where.
pub open spec fn failed(reason: Seq<char>, offset: isize, confidence: u128) -> DecodeView {
    DecodeView {
        ok: false,
        payload: Seq::empty(),
        profile_id: None,
        reason,
        offset,
        length: 0,
        confidence,
    }
}

impl DecodeResult {
    fn fail(reason: &str, offset: isize, confidence: u128) -> (r: Self)
        ensures
            r@ == failed(reason@, offset, confidence),
    {
        DecodeResult {
            ok: false,
            payload: Vec::new(),
            profile_id: None,
            reason: reason.to_owned(),
            offset,
            length: 0,
            confidence,
        }
    }
}

/// The first `n` bytes that a run of wire bits carries.
pub open spec fn bytes_on_wire(bits: Seq<u8>, n: int) -> Seq<u8> {
    fec::hamming_data(fec::deinterleaved(bits.take(14 * n)))
}

/// What the bits at `start` say as a header.
#[verifier::opaque]
pub open spec fn header_result(
    bits: Seq<u8>,
    start: isize,
    confidence: u128,
    max_payload: usize,
) -> DecodeView {
    let body = bytes_on_wire(bits, HEADER_BODY_BYTES as int);
    let length = 256 * body[3] + body[4];
    if bits.len() < 14 * HEADER_BODY_BYTES {
        failed("short read"@, start, confidence)
    } else if body.take(2) != marker() {
        failed("marker mismatch"@, start, confidence)
    } else if fec::crc_of(body.subrange(2, 5), 0xFFFF) % 256 != body[5] {
        failed("header CRC fail"@, start, confidence)
    } else if length > max_payload {
        failed("payload too large"@, start, confidence)
    } else if profile::profile_of(body[2] as int) is None {
        failed("unknown profile id"@, start, confidence)
    } else {
        DecodeView {
            ok: true,
            payload: Seq::empty(),
            profile_id: Some(body[2] as usize),
            reason: Seq::empty(),
            offset: start,
            length: length as usize,
            confidence,
        }
    }
}

/// What the bits at `start` say as a frame of `length` payload bytes.
#[verifier::opaque]
pub open spec fn frame_result(
    bits: Seq<u8>,
    start: isize,
    confidence: u128,
    length: usize,
) -> DecodeView {
    let body = bytes_on_wire(bits, padded_len(length as int));
    if bits.len() < 14 * padded_len(length as int) {
        failed("truncated frame"@, start, confidence)
    } else if fec::crc_of(body.take(length + 6), 0xFFFF) != framing::be16_at(body, length + 6) {
        failed("frame CRC fail"@, start, confidence)
    } else {
        DecodeView {
            ok: true,
            payload: body.subrange(6, 6 + length),
            profile_id: None,
            reason: Seq::empty(),
            offset: start,
            length,
            confidence,
        }
    }
}

/// The bytes that the first `14 * n` bits of a whole number of blocks carry.
fn read_wire(bits: &[u8], n: usize) -> (body: Vec<u8>)
    requires
        n % 6 == 0,
        14 * n <= bits@.len(),
        fec::is_bits(bits@),
    ensures
        body@ == bytes_on_wire(bits@, n as int),
        body@.len() == n,
{
    let len: usize = bits.len();
    assert(14 * n <= len);
    let head = slice_subrange(bits, 0, 14 * n);
    assert(head@ =~= bits@.take(14 * n as int));
    let plain = deinterleave(head);
    proof {
        lemma_wire_bytes(bits@, n as int);
        fec::lemma_deinterleaved_is_bits(head@);
        fec::bits_are_decodable(plain@);
    }
    hamming_decode(plain.as_slice())
}

/// Read the 6-byte header body from the bits that were heard at `start`.
pub fn decode_header(bits: &[u8], start: isize, confidence: u128, max_payload: usize) -> (r:
    DecodeResult)
    requires
        fec::is_bits(bits@),
    ensures
        r@ == header_result(bits@, start, confidence, max_payload),
{
    reveal(header_result);
    if bits.len() < hamming_bit_count(HEADER_BODY_BYTES) {
        return DecodeResult::fail("short read", start, confidence);
    }
    let body = read_wire(bits, HEADER_BODY_BYTES);
    assert(body@.take(2) =~= seq![body@[0], body@[1]]);
    if body[0] != PREAMBLE_MARKER[0] || body[1] != PREAMBLE_MARKER[1] {
        assert(body@.take(2)[0] != marker()[0] || body@.take(2)[1] != marker()[1]);
        return DecodeResult::fail("marker mismatch", start, confidence);
    }
    assert(body@.take(2) =~= marker());
    let fields = slice_subrange(body.as_slice(), 2, 5);
    if crc16(fields) % 256 != body[5] as u16 {
        return DecodeResult::fail("header CRC fail", start, confidence);
    }
    let length: usize = 256 * body[3] as usize + body[4] as usize;
    if length > max_payload {
        return DecodeResult::fail("payload too large", start, confidence);
    }
    if profile::profile(body[2] as usize).is_none() {
        return DecodeResult::fail("unknown profile id", start, confidence);
    }
    DecodeResult {
        ok: true,
        payload: Vec::new(),
        profile_id: Some(body[2] as usize),
        reason: String::new(),
        offset: start,
        length,
        confidence,
    }
}

/// Decode the full frame once the header has said how long it is, from the bits
/// that were heard at `start`.
pub fn decode_frame(bits: &[u8], start: isize, confidence: u128, length: usize) -> (r: DecodeResult)
    requires
        fec::is_bits(bits@),
        14 * padded_len(length as int) <= usize::MAX,
    ensures
        r@ == frame_result(bits@, start, confidence, length),
{
    reveal(frame_result);
    proof {
        lemma_padded_len(length as int);
    }
    let padded: usize = padded_body_bytes(length);
    if bits.len() < hamming_bit_count(padded) {
        return DecodeResult::fail("truncated frame", start, confidence);
    }
    let body = read_wire(bits, padded);
    let want: u16 = read_be16(body.as_slice(), length + 6);
    let checked = slice_subrange(body.as_slice(), 0, length + 6);
    assert(checked@ =~= body@.take(length + 6));
    if crc16(checked) != want {
        return DecodeResult::fail("frame CRC fail", start, confidence);
    }
    DecodeResult {
        ok: true,
        payload: slice_to_vec(
            slice_subrange(body.as_slice(), HEADER_BODY_BYTES, HEADER_BODY_BYTES + length),
        ),
        profile_id: None,
        reason: String::new(),
        offset: start,
        length,
        confidence,
    }
}

// --------------------------------------------------------------------------- //
// What comes back of what was sent
// --------------------------------------------------------------------------- //
/// A header that was read at `start`.
pub open spec fn header_read(id: int, length: int, start: isize, confidence: u128) -> DecodeView {
    DecodeView {
        ok: true,
        payload: Seq::empty(),
        profile_id: Some(id as usize),
        reason: Seq::empty(),
        offset: start,
        length: length as usize,
        confidence,
    }
}

/// A frame that was read at `start`.
pub open spec fn frame_read(payload: Seq<u8>, start: isize, confidence: u128) -> DecodeView {
    DecodeView {
        ok: true,
        payload,
        profile_id: None,
        reason: Seq::empty(),
        offset: start,
        length: payload.len() as usize,
        confidence,
    }
}

/// A frame fills its blocks exactly.
#[verifier::spinoff_prover]
pub proof fn frame_bits_fill_whole_blocks(payload: Seq<u8>, id: int)
    ensures
        frame_body(payload, id).len() == padded_len(payload.len() as int),
        frame_bits(payload, id).len() == 14 * padded_len(payload.len() as int),
        fec::is_bits(frame_bits(payload, id)),
{
    let n = padded_len(payload.len() as int);
    lemma_padded_len(payload.len() as int);
    let body = frame_body(payload, id);
    assert(body.len() == n);
    fec::hamming_code_is_bits(body);
    let code = fec::hamming_code(body);
    let blocks = n / 6;
    assert(n == 6 * blocks);
    assert(code.len() == 14 * n);
    assert(code.len() == 84 * blocks);
    assert(code.len() / 84 == blocks);
    fec::lemma_interleaved_is_bits(code);
}

/// A header says nothing about the bits behind its own block: what is read from
/// the first block is what is read from more.
pub proof fn headers_are_one_block(bits: Seq<u8>, n: int, start: isize, confidence: u128, max: usize)
    requires
        84 <= n <= bits.len(),
    ensures
        header_result(bits.take(n), start, confidence, max) == header_result(
            bits,
            start,
            confidence,
            max,
        ),
{
    reveal(header_result);
    assert(bits.take(n).take(84) =~= bits.take(84));
}

/// Where the payload and the CRC stand in a frame.
proof fn lemma_frame_body(payload: Seq<u8>, id: int)
    ensures
        ({
            let len = payload.len() as int;
            let sent = frame_body(payload, id);
            &&& sent.len() == padded_len(len)
            &&& sent.take(len + 6) == checked_bytes(payload, id)
            &&& sent.subrange(6, 6 + len) == payload
            &&& framing::be16_at(sent, len + 6) == fec::crc_of(checked_bytes(payload, id), 0xFFFF)
            &&& sent.take(6) == marker() + header_bytes(len, id)
        }),
{
    let len = payload.len() as int;
    lemma_padded_len(len);
    let sent = frame_body(payload, id);
    let checked = checked_bytes(payload, id);
    let crc = fec::crc_of(checked, 0xFFFF);
    assert(sent.take(len + 6) =~= checked);
    assert(sent[len + 6] == framing::be16(crc)[0]);
    assert(sent[len + 7] == framing::be16(crc)[1]);
    assert(sent.subrange(6, 6 + len) =~= payload);
    assert(sent.take(6) =~= marker() + header_bytes(len, id));
}

proof fn lemma_payload_survives(
    payload: Seq<u8>,
    id: int,
    heard: Seq<u8>,
    start: isize,
    confidence: u128,
)
    requires
        payload.len() <= 0xFFFF,
        14 * padded_len(payload.len() as int) <= heard.len(),
        fec::one_flip_per_wire_codeword(
            frame_bits(payload, id),
            heard.take(14 * padded_len(payload.len() as int)),
        ),
    ensures
        frame_result(heard, start, confidence, payload.len() as usize) == frame_read(
            payload,
            start,
            confidence,
        ),
{
    reveal(frame_result);
    let n = padded_len(payload.len() as int);
    lemma_padded_len(payload.len() as int);
    lemma_frame_body(payload, id);
    let sent = frame_body(payload, id);
    fec::wire_repairs_one_flip_per_codeword(sent, heard.take(14 * n));
    assert(bytes_on_wire(heard, n) == sent);
}

proof fn lemma_header_survives(
    payload: Seq<u8>,
    id: int,
    heard: Seq<u8>,
    start: isize,
    confidence: u128,
    max_payload: usize,
)
    requires
        payload.len() <= 0xFFFF,
        payload.len() <= max_payload,
        profile::profile_of(id) is Some,
        14 * padded_len(payload.len() as int) <= heard.len(),
        fec::one_flip_per_wire_codeword(
            frame_bits(payload, id),
            heard.take(14 * padded_len(payload.len() as int)),
        ),
    ensures
        header_result(heard, start, confidence, max_payload) == header_read(
            id,
            payload.len() as int,
            start,
            confidence,
        ),
{
    reveal(header_result);
    let len = payload.len() as int;
    let n = padded_len(len);
    lemma_padded_len(len);
    lemma_frame_body(payload, id);
    let sent = frame_body(payload, id);
    let head = sent.take(6);
    assert(bytes_on_wire(heard, 6) == head) by {
        frame_bits_fill_whole_blocks(payload, id);
        let noisy = heard.take(14 * n);
        fec::wire_starts_with_its_first_blocks(sent, 6);
        fec::lemma_flips_in_front(frame_bits(payload, id), noisy, 84);
        assert(noisy.take(84) =~= heard.take(84));
        fec::wire_repairs_one_flip_per_codeword(head, heard.take(84));
    }
    lemma_header_fields(len, id, head);
}

proof fn lemma_header_fields(len: int, id: int, head: Seq<u8>)
    requires
        0 <= len <= 0xFFFF,
        0 <= id < 256,
        head == marker() + header_bytes(len, id),
    ensures
        head.len() == 6,
        head.take(2) == marker(),
        head[2] == id,
        256 * head[3] + head[4] == len,
        fec::crc_of(head.subrange(2, 5), 0xFFFF) % 256 == head[5],
{
    let fields = seq![(id % 256) as u8, (len / 256 % 256) as u8, (len % 256) as u8];
    assert(head.take(2) =~= marker());
    assert(head.subrange(2, 5) =~= fields);
}

/// The receiver reads the header that was sent, and the payload behind it, even
/// where the channel flipped one bit of every codeword.
///
/// The length field has two bytes and the id field one, so longer payloads and
/// unknown profiles are left out, as are lengths the receiver does not admit.
pub proof fn frames_survive_one_flip_per_codeword(
    payload: Seq<u8>,
    id: int,
    heard: Seq<u8>,
    start: isize,
    confidence: u128,
    max_payload: usize,
)
    requires
        payload.len() <= 0xFFFF,
        payload.len() <= max_payload,
        profile::profile_of(id) is Some,
        14 * padded_len(payload.len() as int) <= heard.len(),
        fec::one_flip_per_wire_codeword(
            frame_bits(payload, id),
            heard.take(14 * padded_len(payload.len() as int)),
        ),
    ensures
        header_result(heard, start, confidence, max_payload) == header_read(
            id,
            payload.len() as int,
            start,
            confidence,
        ),
        frame_result(heard, start, confidence, payload.len() as usize) == frame_read(
            payload,
            start,
            confidence,
        ),
{
    lemma_payload_survives(payload, id, heard, start, confidence);
    lemma_header_survives(payload, id, heard, start, confidence, max_payload);
}

/// What is sent over a clean channel is read back.
pub proof fn frames_round_trip(
    payload: Seq<u8>,
    id: int,
    start: isize,
    confidence: u128,
    max_payload: usize,
)
    requires
        payload.len() <= 0xFFFF,
        payload.len() <= max_payload,
        profile::profile_of(id) is Some,
    ensures
        header_result(frame_bits(payload, id), start, confidence, max_payload) == header_read(
            id,
            payload.len() as int,
            start,
            confidence,
        ),
        frame_result(frame_bits(payload, id), start, confidence, payload.len() as usize)
            == frame_read(payload, start, confidence),
{
    let wire = frame_bits(payload, id);
    frame_bits_fill_whole_blocks(payload, id);
    assert(wire.take(14 * padded_len(payload.len() as int)) =~= wire);
    frames_survive_one_flip_per_codeword(payload, id, wire, start, confidence, max_payload);
}

/// A burst no longer than the interleaver is deep, wherever it falls, costs
/// nothing.
pub proof fn frames_survive_a_burst(
    payload: Seq<u8>,
    id: int,
    heard: Seq<u8>,
    burst: int,
    start: isize,
    confidence: u128,
    max_payload: usize,
)
    requires
        payload.len() <= 0xFFFF,
        payload.len() <= max_payload,
        profile::profile_of(id) is Some,
        14 * padded_len(payload.len() as int) <= heard.len(),
        fec::burst_of_twelve(
            frame_bits(payload, id),
            heard.take(14 * padded_len(payload.len() as int)),
            burst,
        ),
    ensures
        header_result(heard, start, confidence, max_payload) == header_read(
            id,
            payload.len() as int,
            start,
            confidence,
        ),
        frame_result(heard, start, confidence, payload.len() as usize) == frame_read(
            payload,
            start,
            confidence,
        ),
{
    let noisy = heard.take(14 * padded_len(payload.len() as int));
    fec::burst_hits_each_codeword_once(frame_bits(payload, id), noisy, burst);
    frames_survive_one_flip_per_codeword(payload, id, heard, start, confidence, max_payload);
}

/// A packet takes 200 ms, its chirp and a step for each symbol, which is what its
/// duration counts and the silence behind its last tone. It starts with 120 ms of
/// silence and ends with 60, and its first tone stands where a receiver that found the
/// chirp looks.
pub proof fn packets_are_as_long_as_they_are_said_to_be(
    plan: PacketPlan,
    payload: Seq<u8>,
    profile_id: int,
    band: Band,
    i: int,
)
    requires
        profile::profile_of(profile_id) is Some,
        plan.carries(payload, profile_id, band),
    ensures
        ({
            let p = profile::profile_of(profile_id).unwrap();
            let chirp = crate::samples_in(band.chirp_ms as int);
            &&& plan.samples() == 9_600 + chirp + frame_symbol_count(payload.len() as int, p)
                * p.step_len()
            &&& plan.samples() == packet_sample_count(payload.len() as int, p, band) + plan.guard
            &&& plan.symbol_at(0) == plan.lead_in + chirp + crate::samples_in(GAP_MS as int)
            &&& 0 <= i < 5_760 ==> plan.sound_at(i) == Sound::Silence
            &&& plan.samples() - 2_880 - plan.guard <= i < plan.samples() ==> plan.sound_at(i)
                == Sound::Silence
        }),
{
    let p = profile::profile_of(profile_id).unwrap();
    let n = plan.symbols@.len() as int;
    let step = p.step_len();
    lemma_padded_len(payload.len() as int);
    assert(n == (14 * padded_len(payload.len() as int) + 1) / 2);
    assert(0 < n);
    assert(n * step == (n - 1) * step + step) by (nonlinear_arith);
    assert(0 * step == 0);
    let behind = i - plan.symbol_at(0);
    if n * step - plan.guard <= behind < n * step {
        vstd::arithmetic::div_mod::lemma_fundamental_div_mod_converse(
            behind,
            step,
            n - 1,
            behind - (n - 1) * step,
        );
    }
}

// --------------------------------------------------------------------------- //
// Fine sync
// --------------------------------------------------------------------------- //
/// The larger of the two.
pub open spec fn larger(a: int, b: int) -> int {
    if a < b {
        b
    } else {
        a
    }
}

/// Samples between neighbouring offsets.
pub open spec fn sync_step(step_ms: int) -> int {
    larger(crate::samples_in(step_ms), 1)
}

/// Offsets on each side of the estimate.
pub open spec fn sync_reach(span_ms: int, step_ms: int) -> int {
    larger(crate::samples_in(span_ms) / sync_step(step_ms), 1)
}

/// The estimate itself, then one step behind it and one before, then two.
pub open spec fn sync_order(span_ms: int, step_ms: int) -> Seq<isize> {
    Seq::new(
        (2 * sync_reach(span_ms, step_ms) + 1) as nat,
        |i: int|
            (if i % 2 == 1 {
                (i + 1) / 2 * sync_step(step_ms)
            } else {
                -(i / 2) * sync_step(step_ms)
            }) as isize,
    )
}

proof fn lemma_sync_reach(span_ms: int, step_ms: int)
    requires
        0 <= span_ms <= u32::MAX,
        0 <= step_ms <= u32::MAX,
    ensures
        0 < sync_step(step_ms) <= 206_158_430,
        0 < sync_reach(span_ms, step_ms) <= 206_158_430,
        sync_reach(span_ms, step_ms) * sync_step(step_ms) <= larger(
            crate::samples_in(span_ms),
            sync_step(step_ms),
        ) <= 206_158_430,
{
    let total = crate::samples_in(span_ms);
    let step = sync_step(step_ms);
    vstd::arithmetic::div_mod::lemma_fundamental_div_mod(total, step);
    assert(0 <= total / step <= total) by (nonlinear_arith)
        requires
            0 <= total,
            0 < step,
    ;
    assert(total / step * step <= total) by (nonlinear_arith)
        requires
            total == step * (total / step) + total % step,
            0 <= total % step,
    ;
    if total / step < 1 {
        assert(sync_reach(span_ms, step_ms) * step == step) by (nonlinear_arith)
            requires
                sync_reach(span_ms, step_ms) == 1,
        ;
    }
}

/// Candidate fine-sync offsets, searched nearest-first around the chirp estimate.
///
/// The matched filter is sample-accurate on paper, but sound-card buffering and
/// resampling shift the data start by a millisecond or two. Symbols are tens of
/// ms long, so a handful of sub-symbol probes covers it.
pub fn sync_offsets(span_ms: u32, step_ms: u32) -> (order: Vec<isize>)
    ensures
        order@ == sync_order(span_ms as int, step_ms as int),
{
    let raw: usize = ms_samples(step_ms);
    let step: usize = if raw < 1 {
        1
    } else {
        raw
    };
    let fit: usize = ms_samples(span_ms) / step;
    let k: usize = if fit < 1 {
        1
    } else {
        fit
    };
    let mut order: Vec<isize> = Vec::new();
    order.push(0);
    let ghost whole = sync_order(span_ms as int, step_ms as int);
    proof {
        lemma_sync_reach(span_ms as int, step_ms as int);
        assert(-(0int / 2) * sync_step(step_ms as int) == 0) by (nonlinear_arith);
        assert(whole[0] == 0);
    }
    let mut i: usize = 0;
    while i < k
        invariant
            i <= k,
            k == sync_reach(span_ms as int, step_ms as int),
            step == sync_step(step_ms as int),
            k <= 206_158_430,
            0 < step <= 206_158_430,
            k * step <= 206_158_430,
            whole == sync_order(span_ms as int, step_ms as int),
            order@.len() == 2 * i + 1,
            forall|j: int| 0 <= j < order@.len() ==> #[trigger] order@[j] == whole[j],
        decreases k - i,
    {
        i = i + 1;
        assert(0 <= i * step <= k * step) by (nonlinear_arith)
            requires
                0 <= i <= k,
                0 < step,
        ;
        let off: isize = (i * step) as isize;
        assert((2 * i - 1 + 1) / 2 == i);
        assert((2 * i) / 2 == i);
        assert(-(i as int) * (step as int) == -(i * step)) by (nonlinear_arith);
        order.push(off);
        order.push(-off);
    }
    assert(order@ =~= whole);
    order
}

/// Fine-sync offsets of a live receiver: four milliseconds each way, in steps of
/// three quarters of one.
pub fn default_sync_offsets() -> (order: Vec<isize>)
    ensures
        order@ == sync_order(4_000, 750),
{
    sync_offsets(4_000, 750)
}

pub open spec fn magnitude(x: int) -> int {
    if x < 0 {
        -x
    } else {
        x
    }
}

proof fn lemma_sync_offset(span_ms: int, step_ms: int, i: int)
    requires
        0 <= span_ms <= u32::MAX,
        0 <= step_ms <= u32::MAX,
        0 <= i < sync_order(span_ms, step_ms).len(),
    ensures
        sync_order(span_ms, step_ms)[i] == (if i % 2 == 1 {
            (i + 1) / 2 * sync_step(step_ms)
        } else {
            -((i + 1) / 2 * sync_step(step_ms))
        }),
        0 <= (i + 1) / 2 * sync_step(step_ms) <= larger(
            crate::samples_in(span_ms),
            sync_step(step_ms),
        ),
{
    let k = sync_reach(span_ms, step_ms);
    let step = sync_step(step_ms);
    lemma_sync_reach(span_ms, step_ms);
    let a = (i + 1) / 2;
    assert(0 <= a <= k);
    assert(0 <= a * step <= k * step) by (nonlinear_arith)
        requires
            0 <= a <= k,
            0 < step,
    ;
    if i % 2 == 0 {
        assert(i / 2 == a);
        assert(-a * step == -(a * step)) by (nonlinear_arith);
    }
}

/// The offsets come nearest first, none twice, and for every one behind the
/// estimate its mirror before it; none lies outside the span, or one step where
/// the span is shorter than that.
pub proof fn sync_offsets_come_nearest_first(span_ms: int, step_ms: int, i: int, j: int)
    requires
        0 <= span_ms <= u32::MAX,
        0 <= step_ms <= u32::MAX,
        0 <= i < j < sync_order(span_ms, step_ms).len(),
    ensures
        ({
            let order = sync_order(span_ms, step_ms);
            &&& order[0] == 0
            &&& magnitude(order[i] as int) <= magnitude(order[j] as int) <= larger(
                crate::samples_in(span_ms),
                sync_step(step_ms),
            )
            &&& order[i] != order[j]
            &&& i % 2 == 1 ==> order[i + 1] == -order[i]
        }),
{
    let step = sync_step(step_ms);
    lemma_sync_reach(span_ms, step_ms);
    lemma_sync_offset(span_ms, step_ms, 0);
    lemma_sync_offset(span_ms, step_ms, i);
    lemma_sync_offset(span_ms, step_ms, j);
    lemma_sync_offset(span_ms, step_ms, i + 1);
    assert((0int + 1) / 2 * step == 0) by (nonlinear_arith);
    let a = (i + 1) / 2;
    let b = (j + 1) / 2;
    assert(a * step <= b * step) by (nonlinear_arith)
        requires
            a <= b,
            0 < step,
    ;
    if a < b {
        assert(a * step < b * step) by (nonlinear_arith)
            requires
                a < b,
                0 < step,
        ;
    } else {
        assert(i % 2 == 1 && j % 2 == 0);
        assert(0 < a * step) by (nonlinear_arith)
            requires
                0 < a,
                0 < step,
        ;
    }
    if i % 2 == 1 {
        assert((i + 2) / 2 == a);
    }
}

// --------------------------------------------------------------------------- //
// Locating a frame
// --------------------------------------------------------------------------- //
/// One place and one profile to try.
#[derive(Clone, Copy, Debug, PartialEq, Eq, Structural)]
pub struct Probe {
    pub profile_id: usize,
    pub start: isize,
}

/// The places to try with one profile: every offset that does not lie before the
/// audio, in order.
pub open spec fn probe_row(id: usize, data_start: int, offsets: Seq<isize>) -> Seq<Probe>
    decreases offsets.len(),
{
    if offsets.len() == 0 {
        Seq::empty()
    } else {
        let before = probe_row(id, data_start, offsets.drop_last());
        let start = data_start + offsets.last();
        if start < 0 {
            before
        } else {
            before.push(Probe { profile_id: id, start: start as isize })
        }
    }
}

/// Everything to try: the known profiles in the order given, each at every offset.
pub open spec fn all_probes(ids: Seq<usize>, data_start: int, offsets: Seq<isize>) -> Seq<Probe>
    decreases ids.len(),
{
    if ids.len() == 0 {
        Seq::empty()
    } else {
        let before = all_probes(ids.drop_last(), data_start, offsets);
        if profile::profile_of(ids.last() as int) is None {
            before
        } else {
            before + probe_row(ids.last(), data_start, offsets)
        }
    }
}

/// No offset leaves the range of positions.
pub open spec fn reachable(data_start: int, offsets: Seq<isize>) -> bool {
    forall|i: int|
        0 <= i < offsets.len() ==> i64::MIN <= data_start + #[trigger] offsets[i] <= isize::MAX
}

/// List everything to try around `data_start`.
pub fn list_probes(ids: &[usize], data_start: i64, offsets: &[isize]) -> (probes: Vec<Probe>)
    requires
        reachable(data_start as int, offsets@),
    ensures
        probes@ == all_probes(ids@, data_start as int, offsets@),
{
    let mut probes: Vec<Probe> = Vec::new();
    let mut n: usize = 0;
    assert(ids@.take(0) =~= Seq::<usize>::empty());
    while n < ids.len()
        invariant
            n <= ids@.len(),
            reachable(data_start as int, offsets@),
            probes@ == all_probes(ids@.take(n as int), data_start as int, offsets@),
        decreases ids@.len() - n,
    {
        let id: usize = ids[n];
        assert(ids@.take(n + 1).drop_last() =~= ids@.take(n as int));
        assert(ids@.take(n + 1).last() == id);
        if profile::profile(id).is_some() {
            let ghost before = probes@;
            let mut k: usize = 0;
            assert(offsets@.take(0) =~= Seq::<isize>::empty());
            assert(before + Seq::<Probe>::empty() =~= before);
            while k < offsets.len()
                invariant
                    k <= offsets@.len(),
                    reachable(data_start as int, offsets@),
                    probes@ == before + probe_row(
                        id,
                        data_start as int,
                        offsets@.take(k as int),
                    ),
                decreases offsets@.len() - k,
            {
                let off: isize = offsets[k];
                assert(offsets@.take(k + 1).drop_last() =~= offsets@.take(k as int));
                assert(offsets@.take(k + 1).last() == off);
                let sum: i64 = data_start + off as i64;
                let ghost row = probe_row(id, data_start as int, offsets@.take(k as int));
                if sum >= 0 {
                    let start: isize = sum as isize;
                    probes.push(Probe { profile_id: id, start });
                    assert(probes@ =~= before + row.push(Probe { profile_id: id, start }));
                }
                k = k + 1;
            }
            assert(offsets@.take(k as int) =~= offsets@);
        }
        n = n + 1;
    }
    assert(ids@.take(n as int) =~= ids@);
    probes
}

/// What a search wants to hear next.
#[derive(Clone, Copy, Debug, PartialEq, Eq, Structural)]
pub enum Want {
    /// The bits of the header at a place.
    Header(Probe),
    /// The bits of a whole frame of this many payload bytes.
    Frame(Probe, usize),
    /// Nothing: the search is over.
    Nothing,
}

/// A search for a frame whose data begins near a given place.
///
/// The search asks for the bits at one place after another; whoever holds the
/// audio demodulates them and hands them in.
pub struct FrameSearch {
    probes: Vec<Probe>,
    next: usize,
    header: Option<DecodeResult>,
    best: DecodeResult,
    max_payload: usize,
}

/// The state of a [`FrameSearch`].
#[verifier::ext_equal]
pub struct SearchView {
    /// What is still to be tried; the search stands at the first.
    pub left: Seq<Probe>,
    /// The header that was read there, once it was.
    pub header: Option<DecodeView>,
    pub best: DecodeView,
    pub max_payload: usize,
}

impl View for FrameSearch {
    type V = SearchView;

    closed spec fn view(&self) -> SearchView {
        SearchView {
            left: self.probes@.skip(self.next as int),
            header: match self.header {
                Some(h) => Some(h@),
                None => None,
            },
            best: self.best@,
            max_payload: self.max_payload,
        }
    }
}

/// What a search in this state wants.
pub open spec fn wanted(s: SearchView) -> Want {
    if s.left.len() == 0 {
        Want::Nothing
    } else {
        match s.header {
            None => Want::Header(s.left[0]),
            Some(h) => Want::Frame(s.left[0], h.length),
        }
    }
}

/// The result of a frame, under the profile that its header named.
pub open spec fn frame_outcome(
    header: DecodeView,
    bits: Seq<u8>,
    start: isize,
    confidence: u128,
) -> DecodeView {
    DecodeView {
        profile_id: header.profile_id,
        ..frame_result(bits, start, confidence, header.length)
    }
}

/// The state after the bits that were wanted.
///
/// A header that cannot be read is remembered only as long as nothing better is
/// known, and not at all where the audio ended before it. A frame that cannot be
/// read replaces whatever was remembered. One that can be read ends the search.
pub open spec fn told(s: SearchView, bits: Seq<u8>, confidence: u128) -> SearchView {
    let at = s.left[0].start;
    match s.header {
        None => {
            let h = header_result(bits, at, confidence, s.max_payload);
            if h.ok {
                SearchView { header: Some(h), ..s }
            } else {
                SearchView {
                    left: s.left.skip(1),
                    best: if h.reason != "short read"@ && s.best.reason == "no candidate"@ {
                        h
                    } else {
                        s.best
                    },
                    ..s
                }
            }
        },
        Some(h) => {
            let r = frame_outcome(h, bits, at, confidence);
            SearchView {
                left: if r.ok {
                    Seq::empty()
                } else {
                    s.left.skip(1)
                },
                header: None,
                best: r,
                ..s
            }
        },
    }
}

/// A header's length field has two bytes.
pub proof fn lemma_header_length(bits: Seq<u8>, start: isize, confidence: u128, max_payload: usize)
    ensures
        header_result(bits, start, confidence, max_payload).length <= 0xFFFF,
{
    reveal(header_result);
}

/// A header that is accepted names a known profile and an admitted length.
pub proof fn lemma_header_admitted(bits: Seq<u8>, start: isize, confidence: u128, max_payload: usize)
    ensures
        ({
            let h = header_result(bits, start, confidence, max_payload);
            h.ok ==> h.length <= max_payload && h.profile_id is Some && profile::profile_of(
                h.profile_id.unwrap() as int,
            ) is Some
        }),
{
    reveal(header_result);
}

/// The fine-sync offsets stay inside the range of positions around this one.
pub open spec fn searchable(data_start: isize) -> bool {
    isize::MIN + 192 <= data_start <= isize::MAX - 192
}

proof fn lemma_default_offsets(data_start: isize)
    requires
        searchable(data_start),
    ensures
        reachable(data_start as int, sync_order(4_000, 750)),
{
    let order = sync_order(4_000, 750);
    assert forall|i: int| 0 <= i < order.len() implies isize::MIN <= data_start
        + #[trigger] order[i] <= isize::MAX by {
        lemma_sync_offset(4_000, 750, i);
        assert(crate::samples_in(4_000) == 192);
        assert(sync_step(750) == 36);
    }
}

/// Locate and decode a frame whose data begins near `data_start`: start a search
/// of these profiles at every fine-sync offset.
///
/// The search ends with a successful result, or with the most informative
/// failure: "marker mismatch" tells you the timing is off, "frame CRC fail" tells
/// you the timing was right and the signal was not.
pub fn try_decode(profile_ids: &[usize], data_start: isize, max_payload: usize) -> (search:
    FrameSearch)
    requires
        searchable(data_start),
    ensures
        search.wf(),
        search@ == (SearchView {
            left: all_probes(profile_ids@, data_start as int, sync_order(4_000, 750)),
            header: None,
            best: failed("no candidate"@, data_start, 0),
            max_payload,
        }),
{
    proof {
        lemma_default_offsets(data_start);
    }
    let probes = list_probes(profile_ids, data_start as i64, default_sync_offsets().as_slice());
    assert(probes@.skip(0) =~= probes@);
    FrameSearch {
        probes,
        next: 0,
        header: None,
        best: DecodeResult::fail("no candidate", data_start, 0),
        max_payload,
    }
}

impl FrameSearch {
    /// The search stands at a probe, or behind the last, and a header that was
    /// read gave a length of two bytes.
    pub closed spec fn wf(self) -> bool {
        &&& self.next <= self.probes@.len()
        &&& match self.header {
            Some(h) => self.next < self.probes@.len() && h.length <= 0xFFFF,
            None => true,
        }
    }

    /// What to demodulate next.
    pub fn want(&self) -> (w: Want)
        requires
            self.wf(),
        ensures
            w == wanted(self@),
            w matches Want::Frame(_, length) ==> length <= 0xFFFF,
    {
        if self.next >= self.probes.len() {
            return Want::Nothing;
        }
        let probe = self.probes[self.next];
        match &self.header {
            None => Want::Header(probe),
            Some(h) => Want::Frame(probe, h.length),
        }
    }

    /// Take the bits that were wanted.
    pub fn tell(&mut self, bits: &[u8], confidence: u128)
        requires
            old(self).wf(),
            wanted(old(self)@) != Want::Nothing,
            fec::is_bits(bits@),
        ensures
            final(self).wf(),
            final(self)@ == told(old(self)@, bits@, confidence),
    {
        let count: usize = self.probes.len();
        assert(self.next < count);
        let at: isize = self.probes[self.next].start;
        let ghost before = self@;
        let header = self.header.take();
        match header {
            None => {
                let h = decode_header(bits, at, confidence, self.max_payload);
                proof {
                    lemma_header_length(bits@, at, confidence, self.max_payload);
                }
                if h.ok {
                    self.header = Some(h);
                } else {
                    if h.reason != "short read".to_owned() && self.best.reason
                        == "no candidate".to_owned() {
                        self.best = h;
                    }
                    self.next = self.next + 1;
                    assert(self@.left =~= before.left.skip(1));
                }
            },
            Some(h) => {
                proof {
                    lemma_padded_len(h.length as int);
                }
                let mut r = decode_frame(bits, at, confidence, h.length);
                r.profile_id = h.profile_id;
                if r.ok {
                    self.next = count;
                    assert(self@.left =~= Seq::<Probe>::empty());
                } else {
                    self.next = self.next + 1;
                    assert(self@.left =~= before.left.skip(1));
                }
                self.best = r;
            },
        }
    }

    /// The outcome, once nothing is wanted any more.
    pub fn result(self) -> (r: DecodeResult)
        ensures
            r@ == self@.best,
    {
        self.best
    }
}

/// What there is to hear: bits and how clear they are, for everything a search may
/// want.
pub type Hearing = spec_fn(Want) -> (Seq<u8>, u128);

/// How a search ends that hears this.
pub open spec fn search_end(s: SearchView, hear: Hearing) -> DecodeView
    decreases s.left.len(),
{
    if s.left.len() == 0 {
        s.best
    } else {
        let first = told(s, hear(wanted(s)).0, hear(wanted(s)).1);
        if first.header is None {
            search_end(first, hear)
        } else {
            search_end(told(first, hear(wanted(first)).0, hear(wanted(first)).1), hear)
        }
    }
}

/// The header at a place.
pub open spec fn header_heard(p: Probe, max_payload: usize, hear: Hearing) -> DecodeView {
    header_result(hear(Want::Header(p)).0, p.start, hear(Want::Header(p)).1, max_payload)
}

/// What one place gives by itself: the frame there, or why there is none.
pub open spec fn attempt(p: Probe, max_payload: usize, hear: Hearing) -> DecodeView {
    let h = header_heard(p, max_payload, hear);
    let w = Want::Frame(p, h.length);
    if h.ok {
        frame_outcome(h, hear(w).0, p.start, hear(w).1)
    } else {
        h
    }
}

/// One place further on.
proof fn lemma_search_step(s: SearchView, hear: Hearing)
    requires
        s.header is None,
        s.left.len() > 0,
    ensures
        ({
            let a = attempt(s.left[0], s.max_payload, hear);
            let h = header_heard(s.left[0], s.max_payload, hear);
            search_end(s, hear) == if a.ok {
                a
            } else {
                search_end(
                    SearchView {
                        left: s.left.skip(1),
                        best: if h.ok || (a.reason != "short read"@ && s.best.reason
                            == "no candidate"@) {
                            a
                        } else {
                            s.best
                        },
                        ..s
                    },
                    hear,
                )
            }
        }),
{
    let h = header_heard(s.left[0], s.max_payload, hear);
    let a = attempt(s.left[0], s.max_payload, hear);
    let first = told(s, hear(wanted(s)).0, hear(wanted(s)).1);
    if h.ok {
        let second = told(first, hear(wanted(first)).0, hear(wanted(first)).1);
        assert(second.best == a);
        assert(second.header is None);
        if a.ok {
            assert(second.left.len() == 0);
            assert(search_end(second, hear) == a);
        } else {
            assert(second == SearchView { left: s.left.skip(1), best: a, ..s });
        }
        assert(search_end(s, hear) == search_end(second, hear));
    } else {
        assert(search_end(s, hear) == search_end(first, hear));
    }
}

/// The first place that gives a frame is the one that counts; nothing behind it is
/// looked at.
pub proof fn the_first_frame_found_wins(s: SearchView, hear: Hearing, k: int)
    requires
        s.header is None,
        0 <= k < s.left.len(),
        attempt(s.left[k], s.max_payload, hear).ok,
        forall|j: int| 0 <= j < k ==> !attempt(#[trigger] s.left[j], s.max_payload, hear).ok,
    ensures
        search_end(s, hear) == attempt(s.left[k], s.max_payload, hear),
    decreases k,
{
    lemma_search_step(s, hear);
    if k > 0 {
        let h = header_heard(s.left[0], s.max_payload, hear);
        let a = attempt(s.left[0], s.max_payload, hear);
        let next = SearchView {
            left: s.left.skip(1),
            best: if h.ok || (a.reason != "short read"@ && s.best.reason == "no candidate"@) {
                a
            } else {
                s.best
            },
            ..s
        };
        assert(next.left[k - 1] == s.left[k]);
        assert forall|j: int| 0 <= j < k - 1 implies !attempt(
            #[trigger] next.left[j],
            s.max_payload,
            hear,
        ).ok by {
            assert(next.left[j] == s.left[j + 1]);
        }
        the_first_frame_found_wins(next, hear, k - 1);
    }
}

/// Where every header that could be read led to a broken frame, the last of them
/// is reported.
pub proof fn the_last_broken_frame_is_reported(s: SearchView, hear: Hearing, k: int)
    requires
        s.header is None,
        -1 <= k < s.left.len(),
        k == -1 ==> s.best.reason != "no candidate"@,
        k >= 0 ==> header_heard(s.left[k], s.max_payload, hear).ok,
        forall|j: int| 0 <= j < s.left.len() ==> !attempt(#[trigger] s.left[j], s.max_payload, hear).ok,
        forall|j: int|
            k < j < s.left.len() ==> !header_heard(#[trigger] s.left[j], s.max_payload, hear).ok,
    ensures
        search_end(s, hear) == (if k < 0 {
            s.best
        } else {
            attempt(s.left[k], s.max_payload, hear)
        }),
    decreases s.left.len(),
{
    if s.left.len() > 0 {
        lemma_search_step(s, hear);
        let h = header_heard(s.left[0], s.max_payload, hear);
        let a = attempt(s.left[0], s.max_payload, hear);
        let next = SearchView {
            left: s.left.skip(1),
            best: if h.ok || (a.reason != "short read"@ && s.best.reason == "no candidate"@) {
                a
            } else {
                s.best
            },
            ..s
        };
        assert forall|j: int| 0 <= j < next.left.len() implies #[trigger] next.left[j] == s.left[j
            + 1] by {}
        let rest = if k < 0 {
            -1
        } else {
            k - 1
        };
        if k == 0 {
            reveal(frame_result);
            reveal_strlit("no candidate");
            reveal_strlit("truncated frame");
            reveal_strlit("frame CRC fail");
            assert("truncated frame"@.len() != "no candidate"@.len());
            assert("frame CRC fail"@.len() != "no candidate"@.len());
        }
        the_last_broken_frame_is_reported(next, hear, rest);
    }
}

/// Where no header could be read at all, the first place whose audio did not end
/// too early is reported.
pub proof fn the_first_misread_header_is_reported(s: SearchView, hear: Hearing, k: int)
    requires
        s.header is None,
        s.best.reason == "no candidate"@,
        0 <= k < s.left.len(),
        forall|j: int|
            0 <= j < s.left.len() ==> !header_heard(#[trigger] s.left[j], s.max_payload, hear).ok,
        header_heard(s.left[k], s.max_payload, hear).reason != "short read"@,
        forall|j: int|
            0 <= j < k ==> header_heard(#[trigger] s.left[j], s.max_payload, hear).reason
                == "short read"@,
    ensures
        search_end(s, hear) == header_heard(s.left[k], s.max_payload, hear),
    decreases k,
{
    lemma_search_step(s, hear);
    let h = header_heard(s.left[0], s.max_payload, hear);
    let next = SearchView {
        left: s.left.skip(1),
        best: if h.reason != "short read"@ {
            h
        } else {
            s.best
        },
        ..s
    };
    assert forall|j: int| 0 <= j < next.left.len() implies #[trigger] next.left[j] == s.left[j
        + 1] by {}
    if k == 0 {
        lemma_header_reasons(s.left[0], s.max_payload, hear);
        the_last_broken_frame_is_reported(next, hear, -1);
    } else {
        the_first_misread_header_is_reported(next, hear, k - 1);
    }
}

proof fn lemma_header_reasons(p: Probe, max_payload: usize, hear: Hearing)
    ensures
        header_heard(p, max_payload, hear).reason != "no candidate"@,
{
    reveal(header_result);
    reveal_strlit("no candidate");
    reveal_strlit("short read");
    reveal_strlit("marker mismatch");
    reveal_strlit("header CRC fail");
    reveal_strlit("payload too large");
    reveal_strlit("unknown profile id");
    assert("short read"@.len() == 10);
    assert("no candidate"@.len() == 12);
    assert("marker mismatch"@.len() == 15);
    assert("header CRC fail"@.len() == 15);
    assert("payload too large"@.len() == 17);
    assert("unknown profile id"@.len() == 18);
}

/// Where the audio ended before every header, there was no candidate.
pub proof fn short_audio_has_no_candidate(s: SearchView, hear: Hearing)
    requires
        s.header is None,
        forall|j: int|
            0 <= j < s.left.len() ==> !(#[trigger] header_heard(
                s.left[j],
                s.max_payload,
                hear,
            )).ok && header_heard(s.left[j], s.max_payload, hear).reason == "short read"@,
    ensures
        search_end(s, hear) == s.best,
    decreases s.left.len(),
{
    if s.left.len() > 0 {
        lemma_search_step(s, hear);
        let next = SearchView { left: s.left.skip(1), ..s };
        assert(header_heard(s.left[0], s.max_payload, hear).reason == "short read"@);
        assert forall|j: int| 0 <= j < next.left.len() implies !(#[trigger] header_heard(
            next.left[j],
            s.max_payload,
            hear,
        )).ok && header_heard(next.left[j], s.max_payload, hear).reason == "short read"@ by {
            assert(next.left[j] == s.left[j + 1]);
            assert(!header_heard(s.left[j + 1], s.max_payload, hear).ok);
        }
        short_audio_has_no_candidate(next, hear);
    }
}

// --------------------------------------------------------------------------- //
// What is accepted
// --------------------------------------------------------------------------- //
/// A frame is accepted exactly where all of it is there and the CRC behind its payload is
/// the one of the bytes before it, whatever its length; the payload is then what stands
/// between the header and the CRC. Everything else is refused, with nothing of it given
/// out.
pub proof fn only_frames_with_their_crc_are_accepted(
    bits: Seq<u8>,
    start: isize,
    confidence: u128,
    length: usize,
)
    ensures
        ({
            let r = frame_result(bits, start, confidence, length);
            let there = 14 * padded_len(length as int) <= bits.len();
            let body = bytes_on_wire(bits, padded_len(length as int));
            let agrees = fec::crc_of(body.take(length + 6), 0xFFFF) == 256 * body[length + 6]
                + body[length + 7];
            &&& r.ok <==> there && agrees
            &&& r.ok ==> r.payload == body.subrange(6, 6 + length) && r.length == length
            &&& !r.ok ==> r.payload.len() == 0 && r.length == 0
            &&& !there ==> r.reason == "truncated frame"@
            &&& there && !agrees ==> r.reason == "frame CRC fail"@
            &&& r.ok ==> r.reason.len() == 0
            &&& r.profile_id is None && r.offset == start && r.confidence == confidence
        }),
{
    reveal(frame_result);
}

/// A frame that is accepted leaves nothing in the CRC register: the bytes from its marker
/// to its CRC, run through the CRC, give zero.
pub proof fn accepted_frames_leave_no_residue(
    bits: Seq<u8>,
    start: isize,
    confidence: u128,
    length: usize,
)
    requires
        fec::is_bits(bits),
        14 * padded_len(length as int) <= bits.len(),
    ensures
        frame_result(bits, start, confidence, length).ok <==> fec::crc_of(
            bytes_on_wire(bits, padded_len(length as int)).take(length + 8),
            0xFFFF,
        ) == 0,
{
    let n = padded_len(length as int);
    let body = bytes_on_wire(bits, n);
    lemma_padded_len(length as int);
    lemma_wire_bytes(bits, n);
    only_frames_with_their_crc_are_accepted(bits, start, confidence, length);
    let head = body.take(length + 6);
    fec::a_message_and_its_crc_leave_nothing(head, 0xFFFF, body[length + 6], body[length + 7]);
    assert(body.take(length + 8) =~= head.push(body[length + 6]).push(body[length + 7]));
}

proof fn lemma_wire_bytes(bits: Seq<u8>, n: int)
    requires
        0 <= n,
        n % 6 == 0,
        14 * n <= bits.len(),
    ensures
        bytes_on_wire(bits, n).len() == n,
{
    let head = bits.take(14 * n);
    assert(14 * n == 84 * (n / 6));
    assert(head.len() / 84 * 84 == 14 * n);
    assert(fec::deinterleaved(head).len() == 14 * n);
}

/// A frame that was damaged beyond repair in one place is refused: where the bytes that
/// were heard differ from the frame that was sent, up to its CRC, and only in two
/// neighbouring bytes, nothing is given out. That holds for frames of every length.
pub proof fn damaged_frames_are_refused(
    payload: Seq<u8>,
    id: int,
    bits: Seq<u8>,
    start: isize,
    confidence: u128,
    k: int,
)
    requires
        fec::is_bits(bits),
        payload.len() <= 0xFFFF,
        14 * padded_len(payload.len() as int) <= bits.len(),
        0 <= k,
        ({
            let n = payload.len() as int + 8;
            let heard = bytes_on_wire(bits, padded_len(payload.len() as int)).take(n);
            let sent = frame_body(payload, id).take(n);
            &&& heard != sent
            &&& forall|i: int| 0 <= i < n && #[trigger] sent[i] != heard[i] ==> k <= i <= k + 1
        }),
    ensures
        !frame_result(bits, start, confidence, payload.len() as usize).ok,
        frame_result(bits, start, confidence, payload.len() as usize).payload.len() == 0,
{
    let len = payload.len() as int;
    let n = len + 8;
    lemma_padded_len(len);
    lemma_wire_bytes(bits, padded_len(len));
    lemma_frame_body(payload, id);
    let body = frame_body(payload, id);
    let heard = bytes_on_wire(bits, padded_len(len)).take(n);
    let sent = body.take(n);
    accepted_frames_leave_no_residue(bits, start, confidence, payload.len() as usize);
    only_frames_with_their_crc_are_accepted(bits, start, confidence, payload.len() as usize);
    let checked = checked_bytes(payload, id);
    fec::a_message_and_its_crc_leave_nothing(checked, 0xFFFF, body[len + 6], body[len + 7]);
    assert(body.take(len + 6) == checked);
    assert(sent =~= checked.push(body[len + 6]).push(body[len + 7]));
    fec::crc_notices_every_short_burst(sent, heard, k, 0xFFFF);
}

/// A header is accepted exactly where its block is there, starts with the marker, has the
/// checksum of its three fields behind them, announces no more than is admitted and names
/// one of the three profiles. It then says what it holds; what is refused says nothing
/// but the first of these that failed.
pub proof fn only_sound_headers_are_accepted(
    bits: Seq<u8>,
    start: isize,
    confidence: u128,
    max_payload: usize,
)
    ensures
        ({
            let r = header_result(bits, start, confidence, max_payload);
            let b = bytes_on_wire(bits, 6);
            let there = 84 <= bits.len();
            let marked = b[0] == 0xAA && b[1] == 0x55;
            let checks = fec::crc_of(seq![b[2], b[3], b[4]], 0xFFFF) % 256 == b[5];
            let length = 256 * b[3] + b[4];
            &&& fec::is_bits(bits) ==> (r.ok <==> there && marked && checks && length <= max_payload
                && b[2] <= 2)
            &&& r.ok ==> r.profile_id == Some(b[2] as usize) && r.length == length
                && r.reason.len() == 0
            &&& !r.ok ==> r.profile_id is None && r.length == 0
            &&& r.payload.len() == 0 && r.offset == start && r.confidence == confidence
            &&& !there ==> r.reason == "short read"@
            &&& fec::is_bits(bits) && there ==> {
                &&& !marked ==> r.reason == "marker mismatch"@
                &&& marked && !checks ==> r.reason == "header CRC fail"@
                &&& marked && checks && length > max_payload ==> r.reason
                    == "payload too large"@
                &&& marked && checks && length <= max_payload && b[2] > 2 ==> r.reason
                    == "unknown profile id"@
            }
        }),
{
    reveal(header_result);
    let b = bytes_on_wire(bits, 6);
    if 84 <= bits.len() {
        lemma_wire_bytes(bits, 6);
        assert(b.take(2) =~= seq![b[0], b[1]]);
        assert(marker()[0] == 0xAA && marker()[1] == 0x55);
        if b[0] == 0xAA && b[1] == 0x55 {
            assert(b.take(2) =~= marker());
        } else {
            assert(b.take(2)[0] != marker()[0] || b.take(2)[1] != marker()[1]);
        }
        assert(b.subrange(2, 5) =~= seq![b[2], b[3], b[4]]);
    }
}

/// The layout of a frame: marker, profile id, length and their checksum, the payload, the
/// CRC of all that, high byte first, and zeros up to the end of the block.
pub proof fn frames_are_laid_out(payload: Seq<u8>, id: int, i: int)
    requires
        payload.len() <= 0xFFFF,
        0 <= id < 256,
    ensures
        ({
            let b = frame_body(payload, id);
            let len = payload.len() as int;
            &&& b.len() % 6 == 0
            &&& len + 8 <= b.len() < len + 14
            &&& b[0] == 0xAA && b[1] == 0x55
            &&& b[2] == id
            &&& 256 * b[3] + b[4] == len
            &&& b[5] == fec::crc_of(seq![b[2], b[3], b[4]], 0xFFFF) % 256
            &&& 0 <= i < len ==> b[6 + i] == payload[i]
            &&& 256 * b[len + 6] + b[len + 7] == fec::crc_of(b.take(len + 6), 0xFFFF)
            &&& len + 8 <= i < b.len() ==> b[i] == 0
        }),
{
    let len = payload.len() as int;
    lemma_padded_len(len);
    lemma_frame_body(payload, id);
    if len + 8 <= i < frame_body(payload, id).len() {
        lemma_fill(payload, id, i);
    }
    lemma_laid_out(payload, id, frame_body(payload, id), i);
}

proof fn lemma_fill(payload: Seq<u8>, id: int, i: int)
    requires
        payload.len() + 8 <= i < frame_body(payload, id).len(),
    ensures
        frame_body(payload, id)[i] == 0,
{
    let body = checked_bytes(payload, id) + framing::be16(
        fec::crc_of(checked_bytes(payload, id), 0xFFFF),
    );
    assert(body.len() == payload.len() + 8);
}

proof fn lemma_laid_out(payload: Seq<u8>, id: int, b: Seq<u8>, i: int)
    requires
        payload.len() <= 0xFFFF,
        0 <= id < 256,
        b.len() >= payload.len() + 8,
        b.take(6) == marker() + header_bytes(payload.len() as int, id),
        b.subrange(6, 6 + payload.len() as int) == payload,
    ensures
        b[0] == 0xAA && b[1] == 0x55,
        b[2] == id,
        256 * b[3] + b[4] == payload.len(),
        b[5] == fec::crc_of(seq![b[2], b[3], b[4]], 0xFFFF) % 256,
        0 <= i < payload.len() ==> b[6 + i] == payload[i],
{
    let head = b.take(6);
    lemma_header_fields(payload.len() as int, id, head);
    assert(b[0] == head[0] && b[1] == head[1] && b[2] == head[2] && b[3] == head[3] && b[4]
        == head[4] && b[5] == head[5]);
    assert(head.subrange(2, 5) =~= seq![b[2], b[3], b[4]]);
    assert(head.take(2)[0] == head[0] && head.take(2)[1] == head[1]);
    if 0 <= i < payload.len() {
        assert(b.subrange(6, 6 + payload.len() as int)[i] == b[6 + i]);
    }
}

/// So many symbols hold the bits, and one less would not.
pub proof fn symbols_are_just_enough(bits: int, p: Profile)
    requires
        0 <= bits,
        0 < p.bits_per_symbol,
    ensures
        ({
            let k = p.bits_per_symbol as int;
            let n = div_up(bits, k);
            (n - 1) * k < bits <= n * k
        }),
{
    let k = p.bits_per_symbol as int;
    let n = div_up(bits, k);
    vstd::arithmetic::div_mod::lemma_fundamental_div_mod(bits + k - 1, k);
    assert((n - 1) * k < bits <= n * k) by (nonlinear_arith)
        requires
            bits + k - 1 == k * n + (bits + k - 1) % k,
            0 <= (bits + k - 1) % k < k,
    ;
}

/// What headers and frames take: as many symbols as hold their coded bits, fourteen for a
/// byte, and none more; from the first sample of the first to the last of the last, with
/// a step between neighbours. A whole packet takes 200 ms and its chirp on top.
pub proof fn frames_take_what_their_bits_need(len: int, p: Profile, band: Band)
    requires
        0 <= len,
        0 < p.bits_per_symbol,
    ensures
        ({
            let k = p.bits_per_symbol as int;
            let (h, f) = (header_symbol_count(p), frame_symbol_count(len, p));
            &&& (h - 1) * k < 84 <= h * k
            &&& (f - 1) * k < 14 * padded_len(len) <= f * k
            &&& frame_sample_count(len, p) + p.step_len() == f * p.step_len() + p.symbol_len()
            &&& packet_sample_count(len, p, band) == 9_600 + crate::samples_in(
                band.chirp_ms as int,
            ) + frame_sample_count(len, p)
        }),
{
    lemma_padded_len(len);
    symbols_are_just_enough(84, p);
    symbols_are_just_enough(14 * padded_len(len), p);
    let k = p.bits_per_symbol as int;
    let f = frame_symbol_count(len, p);
    assert(0 < f) by (nonlinear_arith)
        requires
            0 < 14 * padded_len(len) <= f * k,
            0 < k,
    ;
    let step = p.step_len();
    assert((f - 1) * step + step == f * step) by (nonlinear_arith);
}

/// A longer payload takes no fewer samples.
pub proof fn longer_payloads_take_no_less(a: int, b: int, p: Profile)
    requires
        0 <= a <= b,
        0 < p.bits_per_symbol,
    ensures
        frame_sample_count(a, p) <= frame_sample_count(b, p),
{
    lemma_padded_len(a);
    lemma_padded_len(b);
    symbols_are_just_enough(14 * padded_len(a), p);
    symbols_are_just_enough(14 * padded_len(b), p);
    let k = p.bits_per_symbol as int;
    let (m, n) = (frame_symbol_count(a, p), frame_symbol_count(b, p));
    assert(m <= n) by (nonlinear_arith)
        requires
            (m - 1) * k < 14 * padded_len(a),
            14 * padded_len(b) <= n * k,
            padded_len(a) <= padded_len(b),
            0 < k,
    ;
    assert(0 < m) by (nonlinear_arith)
        requires
            0 < 14 * padded_len(a) <= m * k,
            0 < k,
    ;
    let step = p.step_len();
    assert((m - 1) * step <= (n - 1) * step) by (nonlinear_arith)
        requires
            m <= n,
            0 <= step,
    ;
}

/// Everything is tried, in order: what more profiles add comes behind, each known profile
/// adds its own row and an unknown one nothing.
pub proof fn every_profile_is_tried(
    a: Seq<usize>,
    b: Seq<usize>,
    id: usize,
    data_start: int,
    offsets: Seq<isize>,
)
    ensures
        all_probes(a + b, data_start, offsets) == all_probes(a, data_start, offsets) + all_probes(
            b,
            data_start,
            offsets,
        ),
        all_probes(seq![id], data_start, offsets) == (if id <= 2 {
            probe_row(id, data_start, offsets)
        } else {
            Seq::empty()
        }),
        all_probes(Seq::empty(), data_start, offsets).len() == 0,
    decreases b.len(),
{
    if b.len() == 0 {
        assert(a + b =~= a);
        assert(all_probes(a, data_start, offsets) + all_probes(b, data_start, offsets)
            =~= all_probes(a, data_start, offsets));
    } else {
        every_profile_is_tried(a, b.drop_last(), id, data_start, offsets);
        assert((a + b).drop_last() =~= a + b.drop_last());
        assert((a + b).last() == b.last());
        assert(all_probes(a + b, data_start, offsets) =~= all_probes(a, data_start, offsets)
            + all_probes(b, data_start, offsets));
    }
    let one = seq![id];
    assert(one.drop_last() =~= Seq::<usize>::empty());
    assert(all_probes(one.drop_last(), data_start, offsets) =~= Seq::<Probe>::empty());
    assert(all_probes(one, data_start, offsets) =~= (if id <= 2 {
        probe_row(id, data_start, offsets)
    } else {
        Seq::empty()
    }));
}

/// A profile is tried at every offset, in order: what more offsets add comes behind, and
/// one offset gives one place unless that lies before the audio.
pub proof fn every_offset_is_tried(
    id: usize,
    data_start: int,
    a: Seq<isize>,
    b: Seq<isize>,
    o: isize,
)
    ensures
        probe_row(id, data_start, a + b) == probe_row(id, data_start, a) + probe_row(
            id,
            data_start,
            b,
        ),
        probe_row(id, data_start, seq![o]) == (if data_start + o < 0 {
            Seq::empty()
        } else {
            seq![Probe { profile_id: id, start: (data_start + o) as isize }]
        }),
        probe_row(id, data_start, Seq::empty()).len() == 0,
    decreases b.len(),
{
    if b.len() == 0 {
        assert(a + b =~= a);
        assert(probe_row(id, data_start, a) + probe_row(id, data_start, b) =~= probe_row(
            id,
            data_start,
            a,
        ));
    } else {
        every_offset_is_tried(id, data_start, a, b.drop_last(), o);
        assert((a + b).drop_last() =~= a + b.drop_last());
        assert((a + b).last() == b.last());
        assert(probe_row(id, data_start, a + b) =~= probe_row(id, data_start, a) + probe_row(
            id,
            data_start,
            b,
        ));
    }
    let one = seq![o];
    assert(one.drop_last() =~= Seq::<isize>::empty());
    assert(probe_row(id, data_start, one.drop_last()) =~= Seq::<Probe>::empty());
    assert(probe_row(id, data_start, one) =~= (if data_start + o < 0 {
        Seq::empty()
    } else {
        seq![Probe { profile_id: id, start: (data_start + o) as isize }]
    }));
}

/// No place within the span is farther than a step from some offset that is tried.
pub proof fn offsets_leave_no_gap(span_ms: int, step_ms: int, d: int) -> (i: int)
    requires
        0 <= span_ms <= u32::MAX,
        0 <= step_ms <= u32::MAX,
        -crate::samples_in(span_ms) <= d <= crate::samples_in(span_ms),
    ensures
        0 <= i < sync_order(span_ms, step_ms).len(),
        sync_order(span_ms, step_ms)[i] % (sync_step(step_ms) as isize) == 0,
        -sync_step(step_ms) < d - sync_order(span_ms, step_ms)[i] < sync_step(step_ms),
        sync_step(step_ms) >= 1,
        sync_step(step_ms) == 1 || sync_step(step_ms) == crate::samples_in(step_ms),
        sync_step(step_ms) >= crate::samples_in(step_ms),
{
    let step = sync_step(step_ms);
    let k = sync_reach(span_ms, step_ms);
    lemma_sync_reach(span_ms, step_ms);
    let size = magnitude(d);
    let q = size / step;
    let total = crate::samples_in(span_ms);
    vstd::arithmetic::div_mod::lemma_fundamental_div_mod(size, step);
    vstd::arithmetic::div_mod::lemma_div_is_ordered(size, total, step);
    vstd::arithmetic::div_mod::lemma_div_pos_is_pos(size, step);
    assert(step * q == q * step) by (nonlinear_arith);
    let i = if q == 0 {
        0
    } else if d < 0 {
        2 * q
    } else {
        2 * q - 1
    };
    assert((i + 1) / 2 == q);
    lemma_sync_offset(span_ms, step_ms, i);
    vstd::arithmetic::div_mod::lemma_mod_multiples_basic(q, step);
    assert((-(q * step)) % step == 0) by {
        vstd::arithmetic::div_mod::lemma_mod_multiples_basic(-q, step);
        assert((-q) * step == -(q * step)) by (nonlinear_arith);
    }
    i
}

/// What one place gives is the frame that its header announces, under the profile that
/// the header names; and where the header is refused, why.
pub proof fn a_place_gives_what_its_header_announces(p: Probe, max_payload: usize, hear: Hearing)
    ensures
        ({
            let h = header_heard(p, max_payload, hear);
            let a = attempt(p, max_payload, hear);
            let (bits, clear) = hear(Want::Frame(p, h.length));
            let f = frame_result(bits, p.start, clear, h.length);
            &&& !h.ok ==> a == h
            &&& h.ok ==> a.ok == f.ok && a.payload == f.payload && a.reason == f.reason
                && a.length == f.length && a.profile_id == h.profile_id && a.offset == p.start
                && a.confidence == clear
        }),
{
    reveal(frame_result);
}

/// The tones of a packet say its frame: the bits they stand for are read back as the
/// header and the payload that were sent.
pub proof fn packets_say_their_frame(
    plan: PacketPlan,
    payload: Seq<u8>,
    id: int,
    band: Band,
    start: isize,
    confidence: u128,
    max_payload: usize,
)
    requires
        payload.len() <= 0xFFFF,
        payload.len() <= max_payload,
        profile::profile_of(id) is Some,
        plan.carries(payload, id, band),
    ensures
        header_result(mfsk::bits_of(plan.symbols@, 2), start, confidence, max_payload)
            == header_read(id, payload.len() as int, start, confidence),
        frame_result(
            mfsk::bits_of(plan.symbols@, 2),
            start,
            confidence,
            payload.len() as usize,
        ) == frame_read(payload, start, confidence),
{
    mfsk::frames_survive_one_wrong_symbol(
        payload,
        id,
        2,
        plan.symbols@,
        0,
        start,
        confidence,
        max_payload,
    );
}

/// The bytes that are read from a wire are those of the nearest wire there is: sent again,
/// they would differ in at most one bit of each codeword from what was heard.
pub proof fn bytes_are_read_as_the_nearest(bits: Seq<u8>, n: int)
    requires
        fec::is_bits(bits),
        0 <= n,
        n % 6 == 0,
        14 * n <= bits.len(),
    ensures
        bytes_on_wire(bits, n).len() == n,
        fec::one_flip_per_wire_codeword(
            fec::interleaved(fec::hamming_code(bytes_on_wire(bits, n))),
            bits.take(14 * n),
        ),
{
    let head = bits.take(14 * n);
    lemma_wire_bytes(bits, n);
    assert(14 * n == 84 * (n / 6));
    assert forall|i: int| 0 <= i < head.len() implies #[trigger] head[i] <= 1 by {
        assert(head[i] == bits[i]);
    }
    fec::wires_are_read_as_the_nearest(head);
}

/// A confidence is shown as the nearest whole number.
pub proof fn confidences_are_shown_rounded(c: u128)
    ensures
        ({
            let shown = text::value_of(confidence_text(c), 10);
            let one = 0x1_0000_0000_0000_0000int;
            &&& -one <= 2 * (shown * one - c) <= one
            &&& text::all_digits(confidence_text(c))
        }),
{
    text::rounding_goes_to_the_nearest(c as nat, CONFIDENCE_ONE as nat);
    text::decimals_say_their_number(text::rounded(c as nat, CONFIDENCE_ONE as nat));
}

/// Every offset that is tried is a whole number of steps from the estimate, and there are
/// as many as fit in the span each way, or one.
pub proof fn offsets_are_whole_steps(span_ms: int, step_ms: int, i: int)
    requires
        0 <= span_ms <= u32::MAX,
        0 <= step_ms <= u32::MAX,
        0 <= i < sync_order(span_ms, step_ms).len(),
    ensures
        ({
            let step = sync_step(step_ms);
            let n = sync_order(span_ms, step_ms).len() as int;
            let total = crate::samples_in(span_ms);
            &&& magnitude(sync_order(span_ms, step_ms)[i] as int) == (i + 1) / 2 * step
            &&& n % 2 == 1
            &&& n >= 3
            &&& n > 3 ==> (n - 1) / 2 * step <= total
            &&& total < ((n - 1) / 2 + 1) * step
        }),
{
    let step = sync_step(step_ms);
    let k = sync_reach(span_ms, step_ms);
    let total = crate::samples_in(span_ms);
    lemma_sync_reach(span_ms, step_ms);
    lemma_sync_offset(span_ms, step_ms, i);
    vstd::arithmetic::div_mod::lemma_fundamental_div_mod(total, step);
    let q = total / step;
    assert(total < (q + 1) * step && q * step <= total) by (nonlinear_arith)
        requires
            total == step * q + total % step,
            0 <= total % step < step,
    ;
    if q < 1 {
        assert((q + 1) * step <= (k + 1) * step) by (nonlinear_arith)
            requires
                q < k,
                0 < step,
        ;
    }
}

/// A packet is heard as it is planned: the chirp behind the lead-in from its first sample
/// to its last, then one tone after the other, each with its guard of silence behind it.
pub proof fn packets_sound_as_planned(plan: PacketPlan, s: int, k: int)
    requires
        0 <= s < plan.symbols@.len(),
        0 <= k < plan.symbol + plan.guard,
    ensures
        plan.symbol_at(s + 1) - plan.symbol_at(s) == plan.symbol + plan.guard,
        plan.sound_at(plan.symbol_at(s) + k) == (if k < plan.symbol {
            Sound::Tone(plan.symbols@[s], k)
        } else {
            Sound::Silence
        }),
        k < plan.chirp ==> plan.sound_at(plan.lead_in + k) == Sound::Chirp(k),
        k < plan.gap ==> plan.sound_at(plan.lead_in + plan.chirp + k) == Sound::Silence,
{
    let step = (plan.symbol + plan.guard) as int;
    let n = plan.symbols@.len() as int;
    assert((s + 1) * step == s * step + step) by (nonlinear_arith);
    assert(0 <= s * step && (s + 1) * step <= n * step) by (nonlinear_arith)
        requires
            0 <= s < n,
            0 < step,
    ;
    assert(0 * step == 0);
    vstd::arithmetic::div_mod::lemma_fundamental_div_mod_converse(s * step + k, step, s, k);
}

/// No symbols take no time, and one more takes a step.
pub proof fn each_symbol_takes_a_step(n: int, p: Profile)
    requires
        1 <= n,
    ensures
        symbols_span(0, p) == 0,
        symbols_span(1, p) == p.symbol_len(),
        symbols_span(n + 1, p) == symbols_span(n, p) + p.step_len(),
{
    let step = p.step_len();
    assert((n + 1 - 1) * step == (n - 1) * step + step) by (nonlinear_arith);
    assert(0 * step == 0);
}

} // verus!

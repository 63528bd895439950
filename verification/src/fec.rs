//! CRC-16, Hamming(7,4) and the block interleaver.
//!
//! These three together are the frame's error control. Hamming fixes one bit
//! per codeword, the interleaver spreads a burst across codewords so Hamming
//! can, and the CRC is the final word on whether the result is trustworthy.
use vstd::prelude::*;

verus! {

/// Codewords per interleaver block.
///
/// One M-FSK symbol error corrupts up to `bits_per_symbol` *consecutive* bits,
/// which without interleaving all land in one codeword and are uncorrectable.
/// The depth is chosen so the 6-byte header is exactly one block: that is what
/// lets a receiver de-interleave the header before it knows the frame length.
pub const INTERLEAVE_CW: usize = 12;

/// Bytes per interleaver block (two nibbles per byte).
pub const INTERLEAVE_BYTES: usize = INTERLEAVE_CW / 2;

/// Bits per interleaver block.
pub const BLOCK_BITS: usize = 7 * INTERLEAVE_CW;

// --------------------------------------------------------------------------- //
// CRC-16 / CCITT-FALSE
// --------------------------------------------------------------------------- //
/// One step of the division by x^16 + x^12 + x^5 + 1.
pub open spec fn crc_shift(crc: u16) -> u16 {
    if crc & 0x8000 != 0 {
        (crc << 1) ^ 0x1021
    } else {
        crc << 1
    }
}

/// `n` steps of the division.
pub open spec fn crc_shifts(crc: u16, n: nat) -> u16
    decreases n,
{
    if n == 0 {
        crc
    } else {
        crc_shift(crc_shifts(crc, (n - 1) as nat))
    }
}

/// The register after one more byte: the byte enters at the top, and its eight
/// bits are divided out.
pub open spec fn crc_byte(crc: u16, byte: u8) -> u16 {
    crc_shifts(crc ^ ((byte as u16) << 8), 8)
}

/// The CRC of `data`, byte after byte, from the register value `init`.
pub open spec fn crc_of(data: Seq<u8>, init: u16) -> u16
    decreases data.len(),
{
    if data.len() == 0 {
        init
    } else {
        crc_byte(crc_of(data.drop_last(), init), data.last())
    }
}

proof fn lemma_crc_shifts_xor(x: u16, y: u16, n: nat)
    ensures
        crc_shifts(x ^ y, n) == crc_shifts(x, n) ^ crc_shifts(y, n),
    decreases n,
{
    if n > 0 {
        lemma_crc_shifts_xor(x, y, (n - 1) as nat);
        let a = crc_shifts(x, (n - 1) as nat);
        let b = crc_shifts(y, (n - 1) as nat);
        assert(crc_shift(a ^ b) == crc_shift(a) ^ crc_shift(b)) by (bit_vector);
    }
}

proof fn lemma_crc_shifts_low(low: u16, n: nat)
    requires
        low <= 0xFF,
        n <= 8,
    ensures
        crc_shifts(low, n) == low << (n as u16),
    decreases n,
{
    if n == 0 {
        assert(low << 0u16 == low) by (bit_vector);
    } else {
        lemma_crc_shifts_low(low, (n - 1) as nat);
        let m: u16 = (n - 1) as u16;
        assert(crc_shift(low << m) == low << ((m + 1) as u16)) by (bit_vector)
            requires
                low <= 0xFF,
                m < 8,
        ;
    }
}

/// What lets a table of 256 entries stand for eight division steps: the low
/// byte of the register only moves up, and the high byte alone picks the entry.
proof fn lemma_crc_table_step(crc: u16, byte: u8)
    ensures
        crc_byte(crc, byte) == (crc << 8) ^ crc_shifts(
            (((crc >> 8) ^ (byte as u16)) & 0xFF) << 8,
            8,
        ),
{
    let hi: u16 = (((crc >> 8) ^ (byte as u16)) & 0xFF) << 8;
    let low: u16 = crc & 0xFF;
    assert(crc ^ ((byte as u16) << 8) == hi ^ low) by (bit_vector)
        requires
            hi == (((crc >> 8) ^ (byte as u16)) & 0xFF) << 8,
            low == crc & 0xFF,
    ;
    lemma_crc_shifts_xor(hi, low, 8);
    assert(low <= 0xFF) by (bit_vector)
        requires
            low == crc & 0xFF,
    ;
    lemma_crc_shifts_low(low, 8);
    let rest = crc_shifts(hi, 8);
    assert(rest ^ (low << 8u16) == (crc << 8) ^ rest) by (bit_vector)
        requires
            low == crc & 0xFF,
    ;
}

/// The 256 remainders that drive [`crc16_init`].
fn crc_table() -> (tbl: Vec<u16>)
    ensures
        tbl@.len() == 256,
        forall|b: int| 0 <= b < 256 ==> #[trigger] tbl@[b] == crc_shifts((b as u16) << 8, 8),
{
    let mut tbl: Vec<u16> = Vec::with_capacity(256);
    let mut b: u16 = 0;
    while b < 256
        invariant
            b <= 256,
            tbl@.len() == b,
            forall|k: int| 0 <= k < b ==> #[trigger] tbl@[k] == crc_shifts((k as u16) << 8, 8),
        decreases 256 - b,
    {
        let mut crc: u16 = b << 8;
        let mut i: u16 = 0;
        while i < 8
            invariant
                i <= 8,
                crc == crc_shifts(b << 8, i as nat),
            decreases 8 - i,
        {
            crc = if crc & 0x8000 != 0 {
                (crc << 1) ^ 0x1021
            } else {
                crc << 1
            };
            i = i + 1;
        }
        tbl.push(crc);
        b = b + 1;
    }
    tbl
}

/// CRC-16/CCITT-FALSE of `data`.
pub fn crc16(data: &[u8]) -> (crc: u16)
    ensures
        crc == crc_of(data@, 0xFFFF),
{
    crc16_init(data, 0xFFFF)
}

/// The same CRC from a register value other than the standard one, so a long
/// message can be checked in pieces.
pub fn crc16_init(data: &[u8], init: u16) -> (crc: u16)
    ensures
        crc == crc_of(data@, init),
{
    let tbl = crc_table();
    let mut crc: u16 = init;
    let mut i: usize = 0;
    assert(data@.take(0) =~= Seq::<u8>::empty());
    while i < data.len()
        invariant
            i <= data@.len(),
            crc == crc_of(data@.take(i as int), init),
            tbl@.len() == 256,
            forall|b: int| 0 <= b < 256 ==> #[trigger] tbl@[b] == crc_shifts((b as u16) << 8, 8),
        decreases data@.len() - i,
    {
        let byte: u8 = data[i];
        let index: u16 = ((crc >> 8) ^ byte as u16) & 0xFF;
        proof {
            lemma_crc_table_step(crc, byte);
            assert(index < 256) by (bit_vector)
                requires
                    index == ((crc >> 8) ^ (byte as u16)) & 0xFF,
            ;
            assert(data@.take(i + 1).drop_last() =~= data@.take(i as int));
            assert(data@.take(i + 1).last() == byte);
        }
        crc = (crc << 8) ^ tbl[index as usize];
        i = i + 1;
    }
    assert(data@.take(i as int) =~= data@);
    crc
}

/// Feeding a message in two pieces gives the CRC of the whole message.
pub proof fn crc_of_concatenation(a: Seq<u8>, b: Seq<u8>, init: u16)
    ensures
        crc_of(a + b, init) == crc_of(b, crc_of(a, init)),
    decreases b.len(),
{
    if b.len() == 0 {
        assert(a + b =~= a);
    } else {
        crc_of_concatenation(a, b.drop_last(), init);
        assert((a + b).drop_last() =~= a + b.drop_last());
    }
}

// --------------------------------------------------------------------------- //
// Hamming(7,4)
// --------------------------------------------------------------------------- //
/// Every element is 0 or 1.
pub open spec fn is_bits(bits: Seq<u8>) -> bool {
    forall|i: int| 0 <= i < bits.len() ==> #[trigger] bits[i] <= 1
}

/// Nibble `c` of `data`, high nibble of each byte first.
pub open spec fn nibble_at(data: Seq<u8>, c: int) -> u8 {
    if c % 2 == 0 {
        data[c / 2] >> 4
    } else {
        data[c / 2] & 0x0F
    }
}

/// Code bit `k` of a nibble whose data bits are `d0 d1 d2 d3`, most significant
/// first. Parity sits at positions 0, 1 and 3; position `p` (counted from one)
/// is covered by the parities whose weights add up to `p`.
pub open spec fn code_bit(nib: u8, k: int) -> u8 {
    let d0 = (nib >> 3) & 1;
    let d1 = (nib >> 2) & 1;
    let d2 = (nib >> 1) & 1;
    let d3 = nib & 1;
    if k == 0 {
        d0 ^ d1 ^ d3
    } else if k == 1 {
        d0 ^ d2 ^ d3
    } else if k == 2 {
        d0
    } else if k == 3 {
        d1 ^ d2 ^ d3
    } else if k == 4 {
        d1
    } else if k == 5 {
        d2
    } else {
        d3
    }
}

/// The code bits of `data`: two codewords of seven bits for each byte.
pub open spec fn hamming_code(data: Seq<u8>) -> Seq<u8> {
    Seq::new(14 * data.len(), |j: int| code_bit(nibble_at(data, j / 7), j % 7))
}

/// The parity checks of a codeword, weighted 1, 2 and 4: zero, or one more than
/// the position of the bit to flip.
pub open spec fn syndrome(c0: u8, c1: u8, c2: u8, c3: u8, c4: u8, c5: u8, c6: u8) -> int {
    (c0 ^ c2 ^ c4 ^ c6) + 2 * (c1 ^ c2 ^ c5 ^ c6) + 4 * (c3 ^ c4 ^ c5 ^ c6)
}

/// The data nibble of a codeword once the bit that its syndrome names is flipped.
pub open spec fn corrected_nibble(
    c0: u8,
    c1: u8,
    c2: u8,
    c3: u8,
    c4: u8,
    c5: u8,
    c6: u8,
) -> u8 {
    let pos = syndrome(c0, c1, c2, c3, c4, c5, c6);
    let d0 = if pos == 3 {
        c2 ^ 1
    } else {
        c2
    };
    let d1 = if pos == 5 {
        c4 ^ 1
    } else {
        c4
    };
    let d2 = if pos == 6 {
        c5 ^ 1
    } else {
        c5
    };
    let d3 = if pos == 7 {
        c6 ^ 1
    } else {
        c6
    };
    (d0 << 3) | (d1 << 2) | (d2 << 1) | d3
}

/// The syndrome of codeword `c` in a run of bits.
pub open spec fn syndrome_at(bits: Seq<u8>, c: int) -> int {
    syndrome(
        bits[7 * c],
        bits[7 * c + 1],
        bits[7 * c + 2],
        bits[7 * c + 3],
        bits[7 * c + 4],
        bits[7 * c + 5],
        bits[7 * c + 6],
    )
}

/// The data nibble of codeword `c` in a run of bits.
pub open spec fn decoded_nibble(bits: Seq<u8>, c: int) -> u8 {
    corrected_nibble(
        bits[7 * c],
        bits[7 * c + 1],
        bits[7 * c + 2],
        bits[7 * c + 3],
        bits[7 * c + 4],
        bits[7 * c + 5],
        bits[7 * c + 6],
    )
}

/// The bytes that a run of bits decodes to. Bits past the last whole byte count
/// for nothing.
pub open spec fn hamming_data(bits: Seq<u8>) -> Seq<u8> {
    Seq::new(
        bits.len() / 14,
        |i: int| (decoded_nibble(bits, 2 * i) << 4) | decoded_nibble(bits, 2 * i + 1),
    )
}

/// Every codeword's syndrome names one of its seven positions, or none.
pub open spec fn decodable(bits: Seq<u8>) -> bool {
    forall|c: int| 0 <= c < bits.len() / 7 ==> #[trigger] syndrome_at(bits, c) <= 7
}

/// Bits are always decodable.
pub proof fn bits_are_decodable(bits: Seq<u8>)
    requires
        is_bits(bits),
    ensures
        decodable(bits),
{
    assert forall|c: int| 0 <= c < bits.len() / 7 implies #[trigger] syndrome_at(bits, c) <= 7 by {
        let c0 = bits[7 * c];
        let c1 = bits[7 * c + 1];
        let c2 = bits[7 * c + 2];
        let c3 = bits[7 * c + 3];
        let c4 = bits[7 * c + 4];
        let c5 = bits[7 * c + 5];
        let c6 = bits[7 * c + 6];
        assert(syndrome(c0, c1, c2, c3, c4, c5, c6) <= 7) by (bit_vector)
            requires
                c0 <= 1,
                c1 <= 1,
                c2 <= 1,
                c3 <= 1,
                c4 <= 1,
                c5 <= 1,
                c6 <= 1,
        ;
    }
}

/// Bits produced for `n_bytes` bytes: two nibbles each, seven bits per nibble.
pub fn hamming_bit_count(n_bytes: usize) -> (n: usize)
    requires
        14 * n_bytes <= usize::MAX,
    ensures
        n == 14 * n_bytes,
{
    n_bytes * 2 * 7
}

/// Append the seven code bits of a nibble (the low 4 bits of `nib`).
///
/// Written out rather than kept as a matrix: the generator is fixed and the
/// explicit form is what the parity check has to agree with.
fn encode_nibble(nib: u8, out: &mut Vec<u8>)
    ensures
        final(out)@ == old(out)@ + Seq::new(7, |k: int| code_bit(nib, k)),
{
    let d0: u8 = (nib >> 3) & 1;
    let d1: u8 = (nib >> 2) & 1;
    let d2: u8 = (nib >> 1) & 1;
    let d3: u8 = nib & 1;
    out.push(d0 ^ d1 ^ d3);
    out.push(d0 ^ d2 ^ d3);
    out.push(d0);
    out.push(d1 ^ d2 ^ d3);
    out.push(d1);
    out.push(d2);
    out.push(d3);
    assert(out@ =~= old(out)@ + Seq::new(7, |k: int| code_bit(nib, k)));
}

/// Hamming(7,4) code bits of `data`.
pub fn hamming_encode(data: &[u8]) -> (bits: Vec<u8>)
    requires
        14 * data@.len() <= usize::MAX,
    ensures
        bits@ == hamming_code(data@),
{
    let mut bits: Vec<u8> = Vec::with_capacity(hamming_bit_count(data.len()));
    let mut i: usize = 0;
    while i < data.len()
        invariant
            i <= data@.len(),
            bits@ =~= hamming_code(data@).take(14 * i),
        decreases data@.len() - i,
    {
        let byte: u8 = data[i];
        encode_nibble(byte >> 4, &mut bits);
        encode_nibble(byte & 0x0F, &mut bits);
        proof {
            let whole = hamming_code(data@);
            assert forall|j: int| 0 <= j < 14 * (i + 1) implies bits@[j] == whole[j] by {
                if j >= 14 * i + 7 {
                    assert(j / 7 == 2 * i + 1);
                    assert((2 * i + 1) % 2 == 1);
                    assert((2 * i + 1) / 2 == i as int);
                } else if j >= 14 * i {
                    assert(j / 7 == 2 * i);
                    assert((2 * i) % 2 == 0);
                }
            }
        }
        i = i + 1;
    }
    bits
}

/// Decode bits back to bytes, correcting a single bit error per codeword.
///
/// Trailing bits that do not complete a byte are dropped, matching the encoder:
/// a half-decoded byte carries no meaning the CRC could check.
pub fn hamming_decode(bits: &[u8]) -> (data: Vec<u8>)
    requires
        decodable(bits@),
    ensures
        data@ == hamming_data(bits@),
{
    let len: usize = bits.len();
    let n: usize = len / 14;
    let mut data: Vec<u8> = Vec::with_capacity(n);
    let mut i: usize = 0;
    while i < n
        invariant
            len == bits@.len(),
            n == len / 14,
            i <= n,
            decodable(bits@),
            data@ =~= hamming_data(bits@).take(i as int),
        decreases n - i,
    {
        let high: u8 = decode_nibble(bits, 2 * i);
        let low: u8 = decode_nibble(bits, 2 * i + 1);
        data.push((high << 4) | low);
        i = i + 1;
    }
    data
}

fn decode_nibble(bits: &[u8], c: usize) -> (nib: u8)
    requires
        7 * c + 7 <= bits@.len(),
        decodable(bits@),
    ensures
        nib == decoded_nibble(bits@, c as int),
{
    let len: usize = bits.len();
    assert(7 * c + 7 <= len);
    let base: usize = 7 * c;
    let c0: u8 = bits[base];
    let c1: u8 = bits[base + 1];
    let mut c2: u8 = bits[base + 2];
    let c3: u8 = bits[base + 3];
    let mut c4: u8 = bits[base + 4];
    let mut c5: u8 = bits[base + 5];
    let mut c6: u8 = bits[base + 6];
    let s0: u8 = c0 ^ c2 ^ c4 ^ c6;
    let s1: u8 = c1 ^ c2 ^ c5 ^ c6;
    let s2: u8 = c3 ^ c4 ^ c5 ^ c6;
    assert(syndrome_at(bits@, c as int) <= 7);
    let pos: u8 = s0 + 2 * s1 + 4 * s2;
    if pos == 3 {
        c2 = c2 ^ 1;
    } else if pos == 5 {
        c4 = c4 ^ 1;
    } else if pos == 6 {
        c5 = c5 ^ 1;
    } else if pos == 7 {
        c6 = c6 ^ 1;
    }
    (c2 << 3) | (c4 << 2) | (c5 << 1) | c6
}

// --------------------------------------------------------------------------- //
// Block interleaver
// --------------------------------------------------------------------------- //
/// Where the bit at position `p` of the wire comes from: each block is written
/// as 12 rows of 7 and read out by columns.
#[verifier::opaque]
pub open spec fn wire_source(p: int) -> int {
    (p / 84) * 84 + (p % 12) * 7 + (p % 84) / 12
}

/// Where the bit at position `q` of the codewords stands on the wire.
#[verifier::opaque]
pub open spec fn wire_position(q: int) -> int {
    (q / 84) * 84 + (q % 7) * 12 + (q % 84) / 7
}

/// The whole blocks of `bits`, in wire order.
pub open spec fn interleaved(bits: Seq<u8>) -> Seq<u8> {
    Seq::new(bits.len() / 84 * 84, |p: int| bits[wire_source(p)])
}

/// The whole blocks of the wire `bits`, in codeword order.
pub open spec fn deinterleaved(bits: Seq<u8>) -> Seq<u8> {
    Seq::new(bits.len() / 84 * 84, |q: int| bits[wire_position(q)])
}

/// Bit `c` of row `a` of block `b`, counted along the rows.
proof fn lemma_by_rows(b: int, a: int, c: int)
    requires
        0 <= b,
        0 <= a < 12,
        0 <= c < 7,
    ensures
        ({
            let s = b * 84 + a * 7 + c;
            &&& s / 84 == b
            &&& s % 84 == a * 7 + c
            &&& s % 7 == c
            &&& s / 7 == b * 12 + a
            &&& (s % 84) / 7 == a
        }),
{
    let s = b * 84 + a * 7 + c;
    assert(s / 84 == b);
    assert(s == 7 * (b * 12 + a) + c);
}

/// Bit `c` of row `a` of block `b`, counted down the columns.
proof fn lemma_by_columns(b: int, a: int, c: int)
    requires
        0 <= b,
        0 <= a < 12,
        0 <= c < 7,
    ensures
        ({
            let w = b * 84 + c * 12 + a;
            &&& w / 84 == b
            &&& w % 84 == c * 12 + a
            &&& w % 12 == a
            &&& (w % 84) / 12 == c
        }),
{
    let w = b * 84 + c * 12 + a;
    assert(w / 84 == b);
    assert(w == 12 * (b * 7 + c) + a);
}

proof fn lemma_mod_of_block(p: int)
    requires
        0 <= p,
    ensures
        p % 12 == (p % 84) % 12,
        p % 7 == (p % 84) % 7,
        p == (p / 84) * 84 + p % 84,
{
    let b = p / 84;
    let r = p % 84;
    assert(p == 84 * b + r);
    assert(p == 12 * (7 * b) + r);
    assert(p == 7 * (12 * b) + r);
}

/// Column order is undone by row order, and both stay inside the block.
proof fn lemma_wire_source(p: int)
    requires
        0 <= p,
    ensures
        wire_position(wire_source(p)) == p,
        wire_source(p) / 84 == p / 84,
        0 <= wire_source(p),
        wire_source(p) / 7 == (p / 84) * 12 + p % 12,
{
    reveal(wire_source);
    reveal(wire_position);
    let r = p % 84;
    let a = r % 12;
    let c = r / 12;
    lemma_mod_of_block(p);
    assert(wire_source(p) == (p / 84) * 84 + a * 7 + c);
    lemma_by_rows(p / 84, a, c);
    assert(r == c * 12 + a);
}

/// Row order is undone by column order, and both stay inside the block.
proof fn lemma_wire_position(q: int)
    requires
        0 <= q,
    ensures
        wire_source(wire_position(q)) == q,
        wire_position(q) / 84 == q / 84,
        0 <= wire_position(q),
{
    reveal(wire_source);
    reveal(wire_position);
    let r = q % 84;
    let a = r / 7;
    let c = r % 7;
    lemma_mod_of_block(q);
    assert(wire_position(q) == (q / 84) * 84 + c * 12 + a);
    lemma_by_columns(q / 84, a, c);
    assert(r == a * 7 + c);
}

/// Positions of one block all lie below the end of its last whole block.
proof fn lemma_inside(p: int, s: int, total: int)
    requires
        0 <= p < total,
        0 <= s,
        total % 84 == 0,
        s / 84 == p / 84,
    ensures
        s < total,
{
    assert(total == 84 * (total / 84));
    assert(p / 84 < total / 84);
}

fn source_of(p: usize, total: usize) -> (s: usize)
    requires
        p < total,
        total % 84 == 0,
    ensures
        s == wire_source(p as int),
        s < total,
{
    let base: usize = p / BLOCK_BITS * BLOCK_BITS;
    let row: usize = p % INTERLEAVE_CW;
    let bit: usize = p % BLOCK_BITS / INTERLEAVE_CW;
    proof {
        reveal(wire_source);
        assert(base + row * 7 + bit == wire_source(p as int));
        lemma_wire_source(p as int);
        lemma_inside(p as int, wire_source(p as int), total as int);
    }
    base + row * 7 + bit
}

fn position_of(q: usize, total: usize) -> (w: usize)
    requires
        q < total,
        total % 84 == 0,
    ensures
        w == wire_position(q as int),
        w < total,
{
    let base: usize = q / BLOCK_BITS * BLOCK_BITS;
    let bit: usize = q % 7;
    let row: usize = q % BLOCK_BITS / 7;
    proof {
        reveal(wire_position);
        assert(base + bit * 12 + row == wire_position(q as int));
        lemma_wire_position(q as int);
        lemma_inside(q as int, wire_position(q as int), total as int);
    }
    base + bit * INTERLEAVE_CW + row
}

/// Write codewords as rows, read out columns. Truncates to whole blocks.
pub fn interleave(bits: &[u8]) -> (out: Vec<u8>)
    ensures
        out@ == interleaved(bits@),
{
    let total: usize = bits.len() / BLOCK_BITS * BLOCK_BITS;
    let mut out: Vec<u8> = Vec::with_capacity(total);
    let mut p: usize = 0;
    while p < total
        invariant
            p <= total,
            total == bits@.len() / 84 * 84,
            total % 84 == 0,
            out@ =~= interleaved(bits@).take(p as int),
        decreases total - p,
    {
        let from: usize = source_of(p, total);
        out.push(bits[from]);
        p = p + 1;
    }
    out
}

/// Inverse of [`interleave`]. Truncates to whole blocks.
pub fn deinterleave(bits: &[u8]) -> (out: Vec<u8>)
    ensures
        out@ == deinterleaved(bits@),
{
    let total: usize = bits.len() / BLOCK_BITS * BLOCK_BITS;
    let mut out: Vec<u8> = Vec::with_capacity(total);
    let mut q: usize = 0;
    while q < total
        invariant
            q <= total,
            total == bits@.len() / 84 * 84,
            total % 84 == 0,
            out@ =~= deinterleaved(bits@).take(q as int),
        decreases total - q,
    {
        let from: usize = position_of(q, total);
        out.push(bits[from]);
        q = q + 1;
    }
    out
}

// --------------------------------------------------------------------------- //
// What the three keep together
// --------------------------------------------------------------------------- //
/// De-interleaving gives back what was interleaved, up to the last whole block.
pub proof fn deinterleave_undoes_interleave(bits: Seq<u8>)
    ensures
        deinterleaved(interleaved(bits)) == bits.take((bits.len() / 84 * 84) as int),
{
    let total = bits.len() / 84 * 84;
    let wire = interleaved(bits);
    assert(wire.len() / 84 * 84 == total);
    assert forall|q: int| 0 <= q < total implies deinterleaved(wire)[q] == bits[q] by {
        lemma_wire_position(q);
        lemma_inside(q, wire_position(q), total as int);
    }
    assert(deinterleaved(wire) =~= bits.take(total as int));
}

/// Interleaving gives back what was de-interleaved, up to the last whole block.
pub proof fn interleave_undoes_deinterleave(wire: Seq<u8>)
    ensures
        interleaved(deinterleaved(wire)) == wire.take((wire.len() / 84 * 84) as int),
{
    let total = wire.len() / 84 * 84;
    let bits = deinterleaved(wire);
    assert(bits.len() / 84 * 84 == total);
    assert forall|p: int| 0 <= p < total implies interleaved(bits)[p] == wire[p] by {
        lemma_wire_source(p);
        lemma_inside(p, wire_source(p), total as int);
    }
    assert(interleaved(bits) =~= wire.take(total as int));
}

/// Reordering bits leaves bits.
pub proof fn lemma_deinterleaved_is_bits(wire: Seq<u8>)
    requires
        is_bits(wire),
    ensures
        is_bits(deinterleaved(wire)),
{
    let total = wire.len() / 84 * 84;
    assert forall|q: int| 0 <= q < total implies #[trigger] deinterleaved(wire)[q] <= 1 by {
        lemma_wire_position(q);
        lemma_inside(q, wire_position(q), total as int);
    }
}

/// Reordering bits leaves bits.
pub proof fn lemma_interleaved_is_bits(bits: Seq<u8>)
    requires
        is_bits(bits),
    ensures
        is_bits(interleaved(bits)),
{
    let total = bits.len() / 84 * 84;
    assert forall|p: int| 0 <= p < total implies #[trigger] interleaved(bits)[p] <= 1 by {
        lemma_wire_source(p);
        lemma_inside(p, wire_source(p), total as int);
    }
}

/// Two runs of bits that differ in at most one bit of each codeword.
pub open spec fn one_flip_per_codeword(clean: Seq<u8>, noisy: Seq<u8>) -> bool {
    &&& noisy.len() == clean.len()
    &&& is_bits(noisy)
    &&& forall|i: int, j: int|
        0 <= i < j < clean.len() && #[trigger] clean[i] != noisy[i] && #[trigger] clean[j]
            != noisy[j] ==> i / 7 != j / 7
}

/// The wire position `p` carries a bit of this codeword.
pub open spec fn wire_codeword(p: int) -> int {
    (p / 84) * 12 + p % 12
}

/// Two wires that differ in at most one bit of each codeword they carry.
pub open spec fn one_flip_per_wire_codeword(clean: Seq<u8>, noisy: Seq<u8>) -> bool {
    &&& noisy.len() == clean.len()
    &&& is_bits(noisy)
    &&& forall|i: int, j: int|
        0 <= i < j < clean.len() && #[trigger] clean[i] != noisy[i] && #[trigger] clean[j]
            != noisy[j] ==> wire_codeword(i) != wire_codeword(j)
}

/// Two wires that differ only inside a run of twelve neighbouring bits.
pub open spec fn burst_of_twelve(clean: Seq<u8>, noisy: Seq<u8>, start: int) -> bool {
    &&& noisy.len() == clean.len()
    &&& is_bits(noisy)
    &&& forall|i: int|
        0 <= i < clean.len() && #[trigger] clean[i] != noisy[i] ==> start <= i < start + 12
}

proof fn lemma_nibble_survives(nib: u8, flip: u8)
    by (bit_vector)
    requires
        nib < 16,
        flip < 8,
    ensures
        corrected_nibble(
            code_bit(nib, 0) ^ (if flip == 0 { 1u8 } else { 0u8 }),
            code_bit(nib, 1) ^ (if flip == 1 { 1u8 } else { 0u8 }),
            code_bit(nib, 2) ^ (if flip == 2 { 1u8 } else { 0u8 }),
            code_bit(nib, 3) ^ (if flip == 3 { 1u8 } else { 0u8 }),
            code_bit(nib, 4) ^ (if flip == 4 { 1u8 } else { 0u8 }),
            code_bit(nib, 5) ^ (if flip == 5 { 1u8 } else { 0u8 }),
            code_bit(nib, 6) ^ (if flip == 6 { 1u8 } else { 0u8 }),
        ) == nib,
{
}

/// The codeword `c` of a nibble with at most one bit flipped still decodes to it.
proof fn lemma_codeword_survives(nib: u8, noisy: Seq<u8>, c: int)
    requires
        nib < 16,
        0 <= c,
        7 * c + 7 <= noisy.len(),
        is_bits(noisy),
        forall|i: int, j: int|
            7 * c <= i < j < 7 * c + 7 && #[trigger] noisy[i] != code_bit(nib, i - 7 * c)
                && #[trigger] noisy[j] != code_bit(nib, j - 7 * c) ==> false,
    ensures
        decoded_nibble(noisy, c) == nib,
{
    let b = 7 * c;
    let n0 = noisy[b];
    let n1 = noisy[b + 1];
    let n2 = noisy[b + 2];
    let n3 = noisy[b + 3];
    let n4 = noisy[b + 4];
    let n5 = noisy[b + 5];
    let n6 = noisy[b + 6];
    let flip: u8 = if n0 != code_bit(nib, 0) {
        0
    } else if n1 != code_bit(nib, 1) {
        1
    } else if n2 != code_bit(nib, 2) {
        2
    } else if n3 != code_bit(nib, 3) {
        3
    } else if n4 != code_bit(nib, 4) {
        4
    } else if n5 != code_bit(nib, 5) {
        5
    } else if n6 != code_bit(nib, 6) {
        6
    } else {
        7
    };
    assert forall|k: int| 0 <= k < 7 implies #[trigger] noisy[b + k] == code_bit(nib, k) ^ (
    if flip == k {
        1u8
    } else {
        0u8
    }) by {
        let want = code_bit(nib, k);
        let got = noisy[b + k];
        lemma_code_bit_is_bit(nib, k);
        assert(got <= 1);
        assert(want ^ 0u8 == want) by (bit_vector);
        assert(got == want ^ 1u8 || got == want) by (bit_vector)
            requires
                got <= 1,
                want <= 1,
        ;
        assert(want ^ 1u8 != want) by (bit_vector);
        if got != want && flip != k {
            assert(flip < k);
            assert(noisy[b + flip] != code_bit(nib, b + flip - b));
            assert(noisy[b + k] != code_bit(nib, b + k - b));
            assert(false);
        }
    }
    assert(noisy[b] == noisy[b + 0]);
    lemma_nibble_survives(nib, flip);
}

proof fn lemma_code_bit_is_bit(nib: u8, k: int)
    ensures
        code_bit(nib, k) <= 1,
{
    let d0 = (nib >> 3) & 1;
    let d1 = (nib >> 2) & 1;
    let d2 = (nib >> 1) & 1;
    let d3 = nib & 1;
    assert(d0 ^ d1 ^ d3 <= 1 && d0 ^ d2 ^ d3 <= 1 && d1 ^ d2 ^ d3 <= 1 && d0 <= 1 && d1 <= 1 && d2
        <= 1 && d3 <= 1) by (bit_vector)
        requires
            d0 == (nib >> 3) & 1,
            d1 == (nib >> 2) & 1,
            d2 == (nib >> 1) & 1,
            d3 == nib & 1,
    ;
}

/// Encoding yields bits, fourteen for each byte.
pub proof fn hamming_code_is_bits(data: Seq<u8>)
    ensures
        is_bits(hamming_code(data)),
        hamming_code(data).len() == 14 * data.len(),
{
    assert forall|j: int| 0 <= j < hamming_code(data).len() implies #[trigger] hamming_code(data)[j]
        <= 1 by {
        lemma_code_bit_is_bit(nibble_at(data, j / 7), j % 7);
    }
}

/// Decoding repairs any pattern of errors that flips at most one bit of each
/// codeword; with no error at all it is the inverse of encoding.
pub proof fn hamming_repairs_one_flip_per_codeword(data: Seq<u8>, noisy: Seq<u8>)
    requires
        one_flip_per_codeword(hamming_code(data), noisy),
    ensures
        decodable(noisy),
        hamming_data(noisy) == data,
{
    let clean = hamming_code(data);
    bits_are_decodable(noisy);
    assert forall|c: int| 0 <= c < 2 * data.len() implies #[trigger] decoded_nibble(noisy, c)
        == nibble_at(data, c) by {
        let nib = nibble_at(data, c);
        let byte = data[c / 2];
        assert(byte >> 4 < 16 && byte & 0x0F < 16) by (bit_vector);
        assert forall|i: int, j: int|
            7 * c <= i < j < 7 * c + 7 && #[trigger] noisy[i] != code_bit(nib, i - 7 * c)
                && #[trigger] noisy[j] != code_bit(nib, j - 7 * c) implies false by {
            assert(i / 7 == c && j / 7 == c);
            assert(i % 7 == i - 7 * c && j % 7 == j - 7 * c);
            assert(clean[i] != noisy[i] && clean[j] != noisy[j]);
        }
        lemma_codeword_survives(nib, noisy, c);
    }
    assert forall|i: int| 0 <= i < data.len() implies hamming_data(noisy)[i] == data[i] by {
        let byte = data[i];
        assert(decoded_nibble(noisy, 2 * i) == nibble_at(data, 2 * i));
        assert(decoded_nibble(noisy, 2 * i + 1) == nibble_at(data, 2 * i + 1));
        assert((2 * i) / 2 == i && (2 * i + 1) / 2 == i);
        assert(((byte >> 4) << 4) | (byte & 0x0F) == byte) by (bit_vector);
    }
    assert(hamming_data(noisy) =~= data);
}

/// Decoding is the inverse of encoding.
pub proof fn hamming_round_trip(data: Seq<u8>)
    ensures
        hamming_data(hamming_code(data)) == data,
{
    hamming_code_is_bits(data);
    hamming_repairs_one_flip_per_codeword(data, hamming_code(data));
}

/// The first blocks of a wire carry the first bytes and nothing else, so they can
/// be read before the rest has arrived.
pub proof fn wire_starts_with_its_first_blocks(data: Seq<u8>, n: int)
    requires
        0 <= n <= data.len(),
        n % 6 == 0,
    ensures
        interleaved(hamming_code(data)).take(14 * n) == interleaved(hamming_code(data.take(n))),
{
    let code = hamming_code(data);
    let head = hamming_code(data.take(n));
    let total = 14 * n;
    assert(total == 84 * (n / 6));
    assert(head.len() / 84 * 84 == total);
    assert(total <= code.len() / 84 * 84);
    assert forall|p: int| 0 <= p < total implies interleaved(code)[p] == interleaved(head)[p] by {
        lemma_wire_source(p);
        lemma_inside(p, wire_source(p), total);
        let j = wire_source(p);
        assert(0 <= j / 7 / 2 < n);
        assert(data.take(n)[j / 7 / 2] == data[j / 7 / 2]);
        assert(nibble_at(data.take(n), j / 7) == nibble_at(data, j / 7));
    }
    assert(interleaved(code).take(total) =~= interleaved(head));
}

/// Flips that are rare on the whole wire are rare on its front.
pub proof fn lemma_flips_in_front(clean: Seq<u8>, noisy: Seq<u8>, n: int)
    requires
        one_flip_per_wire_codeword(clean, noisy),
        0 <= n <= clean.len(),
    ensures
        one_flip_per_wire_codeword(clean.take(n), noisy.take(n)),
{
    let a = clean.take(n);
    let b = noisy.take(n);
    assert forall|i: int| 0 <= i < b.len() implies #[trigger] b[i] <= 1 by {
        assert(b[i] == noisy[i]);
    }
    assert forall|i: int, j: int|
        0 <= i < j < a.len() && #[trigger] a[i] != b[i] && #[trigger] a[j]
            != b[j] implies wire_codeword(i) != wire_codeword(j) by {
        assert(clean[i] != noisy[i]);
        assert(clean[j] != noisy[j]);
    }
}

/// A wire that lost at most one bit of each codeword still gives its bytes back.
pub proof fn wire_repairs_one_flip_per_codeword(data: Seq<u8>, noisy: Seq<u8>)
    requires
        data.len() % 6 == 0,
        one_flip_per_wire_codeword(interleaved(hamming_code(data)), noisy),
    ensures
        is_bits(deinterleaved(noisy)),
        deinterleaved(noisy).len() == 14 * data.len(),
        hamming_data(deinterleaved(noisy)) == data,
{
    let code = hamming_code(data);
    let wire = interleaved(code);
    let back = deinterleaved(noisy);
    let total = code.len();
    assert(total == 84 * (data.len() / 6));
    assert(total / 84 * 84 == total);
    assert(wire.len() == total && back.len() == total);
    assert forall|q: int| 0 <= q < total implies #[trigger] back[q] <= 1 by {
        lemma_wire_position(q);
        lemma_inside(q, wire_position(q), total as int);
    }
    assert forall|i: int, j: int|
        0 <= i < j < total && #[trigger] code[i] != back[i] && #[trigger] code[j]
            != back[j] implies i / 7 != j / 7 by {
        lemma_wire_position(i);
        lemma_wire_position(j);
        lemma_inside(i, wire_position(i), total as int);
        lemma_inside(j, wire_position(j), total as int);
        let p = wire_position(i);
        let r = wire_position(j);
        assert(wire[p] == code[i] && wire[r] == code[j]);
        assert(noisy[p] == back[i] && noisy[r] == back[j]);
        assert(p != r);
        lemma_wire_source(p);
        lemma_wire_source(r);
        if p < r {
            assert(wire_codeword(p) != wire_codeword(r));
        } else {
            assert(wire_codeword(r) != wire_codeword(p));
        }
    }
    hamming_repairs_one_flip_per_codeword(data, back);
}

/// Two positions less than twelve apart carry bits of different codewords.
#[verifier::spinoff_prover]
proof fn lemma_neighbours(i: int, j: int)
    requires
        0 <= i < j < i + 12,
    ensures
        wire_codeword(i) != wire_codeword(j),
{
    let a = i / 84;
    let b = j / 84;
    let c = i % 12;
    let d = j % 12;
    if a * 12 + c == b * 12 + d {
        assert(c == d) by {
            assert(0 <= c < 12 && 0 <= d < 12);
        }
        let m = i / 12;
        let n = j / 12;
        assert(i == 12 * m + c && j == 12 * n + d);
        assert(12 * (n - m) == j - i);
        assert(false);
    }
}

/// A burst of up to twelve neighbouring bits, anywhere on the wire, lands in
/// twelve different codewords.
pub proof fn burst_hits_each_codeword_once(clean: Seq<u8>, noisy: Seq<u8>, start: int)
    requires
        burst_of_twelve(clean, noisy, start),
    ensures
        one_flip_per_wire_codeword(clean, noisy),
{
    assert forall|i: int, j: int|
        0 <= i < j < clean.len() && #[trigger] clean[i] != noisy[i] && #[trigger] clean[j]
            != noisy[j] implies wire_codeword(i) != wire_codeword(j) by {
        assert(start <= i && j < start + 12);
        lemma_neighbours(i, j);
    }
}

/// Interleaving spreads a burst as long as the interleaver is deep over as many
/// codewords, and decoding repairs all of them.
pub proof fn wire_survives_a_burst(data: Seq<u8>, noisy: Seq<u8>, start: int)
    requires
        data.len() % 6 == 0,
        burst_of_twelve(interleaved(hamming_code(data)), noisy, start),
    ensures
        hamming_data(deinterleaved(noisy)) == data,
{
    burst_hits_each_codeword_once(interleaved(hamming_code(data)), noisy, start);
    wire_repairs_one_flip_per_codeword(data, noisy);
}

// --------------------------------------------------------------------------- //
// What the CRC tells apart
// --------------------------------------------------------------------------- //
proof fn lemma_crc_shifts_injective(x: u16, y: u16, n: nat)
    ensures
        crc_shifts(x, n) == crc_shifts(y, n) ==> x == y,
    decreases n,
{
    if n > 0 {
        lemma_crc_shifts_injective(x, y, (n - 1) as nat);
        let a = crc_shifts(x, (n - 1) as nat);
        let b = crc_shifts(y, (n - 1) as nat);
        assert(crc_shift(a) == crc_shift(b) ==> a == b) by (bit_vector);
    }
}

proof fn lemma_crc_byte_injective(a: u16, b: u16, byte: u8)
    ensures
        crc_byte(a, byte) == crc_byte(b, byte) ==> a == b,
{
    let y: u16 = (byte as u16) << 8;
    lemma_crc_shifts_injective(a ^ y, b ^ y, 8);
    assert(a ^ y == b ^ y ==> a == b) by (bit_vector);
}

proof fn lemma_crc_low_byte(x: u8)
    requires
        crc_shifts((x as u16) << 8, 8) & 0xFF == 0,
    ensures
        x == 0,
{
    reveal_with_fuel(crc_shifts, 9);
    let y: u16 = (x as u16) << 8;
    assert(crc_shift(
        crc_shift(crc_shift(crc_shift(crc_shift(crc_shift(crc_shift(crc_shift(y))))))),
    ) & 0xFF == 0 ==> x == 0) by (bit_vector)
        requires
            y == (x as u16) << 8,
    ;
}

proof fn lemma_crc_two_bytes(c: u16, a1: u8, a2: u8, b1: u8, b2: u8)
    requires
        a1 != b1 || a2 != b2,
    ensures
        crc_byte(crc_byte(c, a1), a2) != crc_byte(crc_byte(c, b1), b2),
{
    if crc_byte(crc_byte(c, a1), a2) == crc_byte(crc_byte(c, b1), b2) {
        let a: u16 = (a1 as u16) << 8;
        let b: u16 = (b1 as u16) << 8;
        let d: u16 = (a2 as u16) << 8;
        let e: u16 = (b2 as u16) << 8;
        let p = crc_byte(c, a1);
        let q = crc_byte(c, b1);
        lemma_crc_shifts_injective(p ^ d, q ^ e, 8);
        lemma_crc_shifts_xor(c ^ a, c ^ b, 8);
        let x: u8 = a1 ^ b1;
        assert((c ^ a) ^ (c ^ b) == (x as u16) << 8) by (bit_vector)
            requires
                a == (a1 as u16) << 8,
                b == (b1 as u16) << 8,
                x == a1 ^ b1,
        ;
        assert((p ^ q) & 0xFF == 0) by (bit_vector)
            requires
                p ^ d == q ^ e,
                d == (a2 as u16) << 8,
                e == (b2 as u16) << 8,
        ;
        lemma_crc_low_byte(x);
        assert(a1 == b1) by (bit_vector)
            requires
                a1 ^ b1 == 0,
        ;
        assert(a2 == b2) by (bit_vector)
            requires
                p ^ d == p ^ e,
                d == (a2 as u16) << 8,
                e == (b2 as u16) << 8,
        ;
    }
}

proof fn lemma_crc_residue(c: u16, high: u8, low: u8)
    ensures
        crc_byte(crc_byte(c, high), low) == 0 <==> c == 256 * high + low,
{
    let h: u8 = (c / 256) as u8;
    let l: u8 = (c % 256) as u8;
    let l16: u16 = l as u16;
    let h16: u16 = h as u16;
    assert(c ^ (h16 << 8) == l16) by (bit_vector)
        requires
            h16 == c / 256,
            l16 == c % 256,
    ;
    lemma_crc_shifts_low(l16, 8);
    assert((l16 << 8u16) ^ (l16 << 8) == 0) by (bit_vector);
    lemma_crc_shifts_low(0, 8);
    assert(0u16 << 8u16 == 0) by (bit_vector);
    assert(crc_byte(crc_byte(c, h), l) == 0);
    if h != high || l != low {
        lemma_crc_two_bytes(c, h, l, high, low);
    }
}

proof fn lemma_same_tail(a: Seq<u8>, b: Seq<u8>, x: u16, y: u16)
    requires
        a == b,
        x != y,
    ensures
        crc_of(a, x) != crc_of(b, y),
    decreases a.len(),
{
    if a.len() > 0 {
        lemma_same_tail(a.drop_last(), b.drop_last(), x, y);
        lemma_crc_byte_injective(crc_of(a.drop_last(), x), crc_of(b.drop_last(), y), a.last());
    }
}

/// Two messages that differ, and only inside two neighbouring bytes, never have the
/// same CRC: whatever a burst of up to sixteen bits does to a message is noticed,
/// wherever it falls and however long the message is.
pub proof fn crc_notices_every_short_burst(a: Seq<u8>, b: Seq<u8>, k: int, init: u16)
    requires
        a.len() == b.len(),
        0 <= k,
        a != b,
        forall|i: int| 0 <= i < a.len() && #[trigger] a[i] != b[i] ==> k <= i <= k + 1,
    ensures
        crc_of(a, init) != crc_of(b, init),
{
    let n = a.len() as int;
    if forall|i: int| 0 <= i < n ==> a[i] == b[i] {
        assert(a =~= b);
    }
    let i = choose|i: int| 0 <= i < n && a[i] != b[i];
    assert(k <= i <= k + 1);
    let head = a.take(k);
    assert(head =~= b.take(k));
    let c = crc_of(head, init);
    if k + 1 < n {
        let (p, q) = (seq![a[k], a[k + 1]], seq![b[k], b[k + 1]]);
        assert(a =~= head + p + a.skip(k + 2));
        assert(b =~= head + q + b.skip(k + 2));
        assert(a.skip(k + 2) =~= b.skip(k + 2));
        crc_of_concatenation(head + p, a.skip(k + 2), init);
        crc_of_concatenation(head + q, b.skip(k + 2), init);
        crc_of_concatenation(head, p, init);
        crc_of_concatenation(head, q, init);
        reveal_with_fuel(crc_of, 3);
        assert(p.drop_last() =~= seq![a[k]] && q.drop_last() =~= seq![b[k]]);
        assert(p.drop_last().drop_last() =~= Seq::<u8>::empty());
        assert(q.drop_last().drop_last() =~= Seq::<u8>::empty());
        lemma_crc_two_bytes(c, a[k], a[k + 1], b[k], b[k + 1]);
        lemma_same_tail(a.skip(k + 2), b.skip(k + 2), crc_of(p, c), crc_of(q, c));
    } else {
        assert(a.drop_last() =~= head && b.drop_last() =~= head);
        lemma_crc_two_bytes(c, a[k], 0, b[k], 0);
    }
}

/// A message with its CRC behind it, high byte first, leaves nothing in the register;
/// and no other two bytes do.
pub proof fn a_message_and_its_crc_leave_nothing(data: Seq<u8>, init: u16, high: u8, low: u8)
    ensures
        crc_of(data.push(high).push(low), init) == 0 <==> crc_of(data, init) == 256 * high + low,
{
    let c = crc_of(data, init);
    assert(data.push(high).push(low).drop_last() =~= data.push(high));
    assert(data.push(high).drop_last() =~= data);
    reveal_with_fuel(crc_of, 3);
    lemma_crc_residue(c, high, low);
}

/// The CRC is linear: the difference of two messages decides the difference of their
/// CRCs, wherever the registers start.
pub proof fn the_crc_is_linear(a: Seq<u8>, b: Seq<u8>, x: u16, y: u16)
    requires
        a.len() == b.len(),
    ensures
        crc_of(a, x) ^ crc_of(b, y) == crc_of(
            Seq::new(a.len(), |i: int| a[i] ^ b[i]),
            x ^ y,
        ),
    decreases a.len(),
{
    let d = Seq::new(a.len(), |i: int| a[i] ^ b[i]);
    if a.len() > 0 {
        let (p, q) = (a.drop_last(), b.drop_last());
        the_crc_is_linear(p, q, x, y);
        assert(d.drop_last() =~= Seq::new(p.len(), |i: int| p[i] ^ q[i]));
        let (u, v) = (crc_of(p, x), crc_of(q, y));
        let (s, t) = (a.last(), b.last());
        let (su, tv) = (u ^ ((s as u16) << 8), v ^ ((t as u16) << 8));
        lemma_crc_shifts_xor(su, tv, 8);
        assert(su ^ tv == (u ^ v) ^ (((s ^ t) as u16) << 8)) by (bit_vector)
            requires
                su == u ^ ((s as u16) << 8),
                tv == v ^ ((t as u16) << 8),
        ;
    }
}

/// Whatever is received is read as the nearest codewords there are: encoding what was
/// decoded gives back the bits that came in, but for at most one bit of each codeword.
/// Bits past the last whole byte count for nothing.
pub proof fn decoding_finds_the_nearest_codewords(bits: Seq<u8>)
    requires
        is_bits(bits),
    ensures
        hamming_data(bits).len() == bits.len() / 14,
        one_flip_per_codeword(
            hamming_code(hamming_data(bits)),
            bits.take((bits.len() / 14 * 14) as int),
        ),
{
    let data = hamming_data(bits);
    let clean = hamming_code(data);
    let noisy = bits.take((bits.len() / 14 * 14) as int);
    assert forall|i: int| 0 <= i < noisy.len() implies #[trigger] noisy[i] <= 1 by {
        assert(noisy[i] == bits[i]);
    }
    assert forall|i: int, j: int|
        0 <= i < j < clean.len() && #[trigger] clean[i] != noisy[i] && #[trigger] clean[j]
            != noisy[j] implies i / 7 != j / 7 by {
        if i / 7 == j / 7 {
            let c = i / 7;
            let b = 7 * c;
            let n = decoded_nibble(bits, c);
            lemma_decoded_nibble_at(bits, c);
            assert(0 <= i - b < j - b < 7);
            assert(i % 7 == i - b && j % 7 == j - b);
            let (n0, n1, n2, n3) = (bits[b], bits[b + 1], bits[b + 2], bits[b + 3]);
            let (n4, n5, n6) = (bits[b + 4], bits[b + 5], bits[b + 6]);
            lemma_nearest(n0, n1, n2, n3, n4, n5, n6, n);
            assert(noisy[i] == bits[i] && noisy[j] == bits[j]);
            assert(bits[i] != code_bit(n, i - b) && bits[j] != code_bit(n, j - b));
            let (k, l) = (i - b, j - b);
            assert(i == b + k && j == b + l);
            assert(k == 0 || k == 1 || k == 2 || k == 3 || k == 4 || k == 5);
            assert(l == 1 || l == 2 || l == 3 || l == 4 || l == 5 || l == 6);
            assert(false);
        }
    }
}

proof fn lemma_decoded_nibble_at(bits: Seq<u8>, c: int)
    requires
        is_bits(bits),
        0 <= c < bits.len() / 14 * 2,
    ensures
        nibble_at(hamming_data(bits), c) == decoded_nibble(bits, c),
{
    let k = c / 2;
    let (high, low) = (decoded_nibble(bits, 2 * k), decoded_nibble(bits, 2 * k + 1));
    lemma_nibble_is_small(bits, 2 * k);
    lemma_nibble_is_small(bits, 2 * k + 1);
    assert(((high << 4) | low) >> 4 == high && ((high << 4) | low) & 0x0F == low) by (bit_vector)
        requires
            high < 16,
            low < 16,
    ;
    assert(hamming_data(bits)[k] == (high << 4) | low);
}

proof fn lemma_nibble_is_small(bits: Seq<u8>, c: int)
    requires
        is_bits(bits),
        0 <= c,
        7 * c + 7 <= bits.len(),
    ensures
        decoded_nibble(bits, c) < 16,
{
    let b = 7 * c;
    let (n0, n1, n2, n3) = (bits[b], bits[b + 1], bits[b + 2], bits[b + 3]);
    let (n4, n5, n6) = (bits[b + 4], bits[b + 5], bits[b + 6]);
    assert(corrected_nibble(n0, n1, n2, n3, n4, n5, n6) < 16) by (bit_vector)
        requires
            n0 <= 1,
            n1 <= 1,
            n2 <= 1,
            n3 <= 1,
            n4 <= 1,
            n5 <= 1,
            n6 <= 1,
    ;
}

proof fn lemma_nearest(c0: u8, c1: u8, c2: u8, c3: u8, c4: u8, c5: u8, c6: u8, n: u8)
    by (bit_vector)
    requires
        c0 <= 1,
        c1 <= 1,
        c2 <= 1,
        c3 <= 1,
        c4 <= 1,
        c5 <= 1,
        c6 <= 1,
        n == corrected_nibble(c0, c1, c2, c3, c4, c5, c6),
    ensures
        (if c0 != code_bit(n, 0) { 1u8 } else { 0u8 }) + (if c1 != code_bit(n, 1) {
            1u8
        } else {
            0u8
        }) + (if c2 != code_bit(n, 2) { 1u8 } else { 0u8 }) + (if c3 != code_bit(n, 3) {
            1u8
        } else {
            0u8
        }) + (if c4 != code_bit(n, 4) { 1u8 } else { 0u8 }) + (if c5 != code_bit(n, 5) {
            1u8
        } else {
            0u8
        }) + (if c6 != code_bit(n, 6) { 1u8 } else { 0u8 }) <= 1,
{
}

/// Every codeword holds its nibble, most significant bit first, in the third, fifth,
/// sixth and seventh bit, and the three parity groups of a codeword are even. The high
/// nibble of a byte comes before the low one.
pub proof fn codewords_hold_their_nibbles(data: Seq<u8>, c: int)
    requires
        0 <= c < 2 * data.len(),
    ensures
        ({
            let w = hamming_code(data).subrange(7 * c, 7 * c + 7);
            &&& 8 * w[2] + 4 * w[4] + 2 * w[5] + w[6] == (if c % 2 == 0 {
                data[c / 2] as int / 16
            } else {
                data[c / 2] as int % 16
            })
            &&& (w[0] + w[2] + w[4] + w[6]) % 2 == 0
            &&& (w[1] + w[2] + w[5] + w[6]) % 2 == 0
            &&& (w[3] + w[4] + w[5] + w[6]) % 2 == 0
        }),
{
    let code = hamming_code(data);
    let w = code.subrange(7 * c, 7 * c + 7);
    let n = nibble_at(data, c);
    assert forall|k: int| 0 <= k < 7 implies #[trigger] w[k] == code_bit(n, k) by {
        assert((7 * c + k) / 7 == c && (7 * c + k) % 7 == k);
    }
    let byte = data[c / 2];
    assert(byte >> 4 == byte / 16 && byte & 0x0F == byte % 16 && byte >> 4 < 16 && byte & 0x0F
        < 16) by (bit_vector);
    let (w0, w1, w2, w3) = (w[0], w[1], w[2], w[3]);
    let (w4, w5, w6) = (w[4], w[5], w[6]);
    assert(8 * w2 + 4 * w4 + 2 * w5 + w6 == n && (w0 + w2 + w4 + w6) % 2 == 0 && (w1 + w2 + w5 + w6)
        % 2 == 0 && (w3 + w4 + w5 + w6) % 2 == 0) by (bit_vector)
        requires
            n < 16,
            w0 == code_bit(n, 0),
            w1 == code_bit(n, 1),
            w2 == code_bit(n, 2),
            w3 == code_bit(n, 3),
            w4 == code_bit(n, 4),
            w5 == code_bit(n, 5),
            w6 == code_bit(n, 6),
    ;
}

/// Each whole block of twelve codewords goes on the wire bit by bit: first the first
/// bits of all twelve, then the second ones, and so on; and comes back from there.
pub proof fn blocks_go_out_bit_by_bit(bits: Seq<u8>, block: int, word: int, bit: int)
    requires
        0 <= block,
        0 <= word < 12,
        0 <= bit < 7,
        84 * block + 84 <= bits.len(),
    ensures
        interleaved(bits).len() == bits.len() - bits.len() % 84,
        deinterleaved(bits).len() == bits.len() - bits.len() % 84,
        interleaved(bits)[84 * block + 12 * bit + word] == bits[84 * block + 7 * word + bit],
        deinterleaved(bits)[84 * block + 7 * word + bit] == bits[84 * block + 12 * bit + word],
{
    reveal(wire_source);
    reveal(wire_position);
    lemma_by_rows(block, word, bit);
    lemma_by_columns(block, word, bit);
    assert(bits.len() / 84 * 84 == bits.len() - bits.len() % 84);
    assert(84 * block + 84 <= bits.len() / 84 * 84);
}

/// Only whole blocks go on the wire, and all of them; what was put there comes back, and
/// the other way round.
pub proof fn interleaving_loses_nothing_of_whole_blocks(bits: Seq<u8>)
    ensures
        interleaved(bits).len() == bits.len() - bits.len() % 84,
        deinterleaved(bits).len() == bits.len() - bits.len() % 84,
        deinterleaved(interleaved(bits)) == bits.take(bits.len() - bits.len() % 84),
        interleaved(deinterleaved(bits)) == bits.take(bits.len() - bits.len() % 84),
{
    let total = (bits.len() / 84 * 84) as int;
    assert(total == bits.len() - bits.len() % 84);
    assert(total / 84 * 84 == total);
    let (a, b) = (deinterleaved(interleaved(bits)), interleaved(deinterleaved(bits)));
    assert forall|p: int| 0 <= p < total implies a[p] == bits[p] && b[p] == bits[p] by {
        lemma_wire_source(p);
        lemma_inside(p, wire_source(p), total);
        lemma_wire_position(p);
        lemma_inside(p, wire_position(p), total);
    }
    assert(a =~= bits.take(total));
    assert(b =~= bits.take(total));
}

/// Whatever is heard is read as the nearest wire there is: the bytes that are read, sent
/// again, would differ in at most one bit of each codeword from what was heard.
pub proof fn wires_are_read_as_the_nearest(wire: Seq<u8>)
    requires
        is_bits(wire),
        wire.len() % 84 == 0,
    ensures
        one_flip_per_wire_codeword(
            interleaved(hamming_code(hamming_data(deinterleaved(wire)))),
            wire,
        ),
{
    let back = deinterleaved(wire);
    let data = hamming_data(back);
    let code = hamming_code(data);
    let total = wire.len() as int;
    assert(total / 84 * 84 == total);
    lemma_deinterleaved_is_bits(wire);
    assert(back.len() == total);
    assert(total / 14 * 14 == total) by {
        assert(total == 84 * (total / 84));
    }
    decoding_finds_the_nearest_codewords(back);
    assert(back.take(total) =~= back);
    let clean = interleaved(code);
    assert(code.len() == total);
    assert forall|i: int, j: int|
        0 <= i < j < clean.len() && #[trigger] clean[i] != wire[i] && #[trigger] clean[j]
            != wire[j] implies wire_codeword(i) != wire_codeword(j) by {
        lemma_wire_source(i);
        lemma_wire_source(j);
        lemma_inside(i, wire_source(i), total);
        lemma_inside(j, wire_source(j), total);
        let (a, b) = (wire_source(i), wire_source(j));
        assert(clean[i] == code[a] && clean[j] == code[b]);
        assert(back[a] == wire[i] && back[b] == wire[j]);
        assert(a != b);
        if a < b {
            assert(a / 7 != b / 7);
        } else {
            assert(b / 7 != a / 7);
        }
    }
}

} // verus!

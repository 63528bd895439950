//! The digital side of the M-FSK modulator / demodulator.
//!
//! A symbol carries `bits_per_symbol` bits as the number of a tone, most
//! significant bit first. Rendering tones and measuring their energies is signal
//! processing; which tone stands for which bits, which samples a symbol occupies
//! and which tone wins are decided here.
use crate::fec;
use crate::packet;
use crate::packet::{ceil_div, span_samples};
use crate::profile::Profile;
use vstd::arithmetic::power2;
use vstd::prelude::*;

verus! {

/// Bit `i` of a run that is filled up with zeros.
pub open spec fn bit_or_zero(bits: Seq<u8>, i: int) -> int {
    if i < bits.len() {
        bits[i] as int % 2
    } else {
        0
    }
}

/// The number that `n` bits from `at` on spell, most significant first.
pub open spec fn number_at(bits: Seq<u8>, at: int, n: nat) -> nat
    decreases n,
{
    if n == 0 {
        0
    } else {
        (2 * number_at(bits, at, (n - 1) as nat) + bit_or_zero(bits, at + n - 1)) as nat
    }
}

/// The symbols that carry `bits`, the last one filled up with zeros.
pub open spec fn symbols_of(bits: Seq<u8>, per_symbol: int) -> Seq<usize> {
    Seq::new(
        packet::div_up(bits.len() as int, per_symbol) as nat,
        |s: int| number_at(bits, s * per_symbol, per_symbol as nat) as usize,
    )
}

/// Bit `k` of a symbol, counted from the most significant of `per_symbol`.
pub open spec fn symbol_bit(symbol: int, per_symbol: int, k: int) -> u8 {
    (symbol / power2::pow2((per_symbol - 1 - k) as nat) as int % 2) as u8
}

/// The bits that a run of symbols carries.
pub open spec fn bits_of(symbols: Seq<usize>, per_symbol: int) -> Seq<u8> {
    Seq::new(
        (symbols.len() * per_symbol) as nat,
        |i: int| symbol_bit(symbols[i / per_symbol] as int, per_symbol, i % per_symbol),
    )
}

proof fn lemma_number_bound(bits: Seq<u8>, at: int, n: nat)
    ensures
        number_at(bits, at, n) < power2::pow2(n),
    decreases n,
{
    if n == 0 {
        power2::lemma2_to64();
    } else {
        lemma_number_bound(bits, at, (n - 1) as nat);
        power2::lemma_pow2_unfold(n);
    }
}

/// Bit `k` of a number is the bit that it was spelled with.
proof fn lemma_number_bits(bits: Seq<u8>, at: int, n: nat, k: int)
    requires
        0 <= k < n,
        0 <= at,
    ensures
        number_at(bits, at, n) / power2::pow2((n - 1 - k) as nat) % 2 == bit_or_zero(bits, at + k),
    decreases n,
{
    let v = number_at(bits, at, n);
    let low = bit_or_zero(bits, at + n - 1);
    let high = number_at(bits, at, (n - 1) as nat);
    assert(0 <= low <= 1);
    assert(v == 2 * high + low);
    if k == n - 1 {
        power2::lemma2_to64();
        assert(power2::pow2(0) == 1);
        assert(v / 1 == v);
    } else {
        let m = (n - 2 - k) as nat;
        lemma_number_bits(bits, at, (n - 1) as nat, k);
        power2::lemma_pow2_unfold(m + 1);
        power2::lemma_pow2_pos(m);
        let p = power2::pow2(m);
        assert(power2::pow2(m + 1) == 2 * p);
        vstd::arithmetic::div_mod::lemma_div_denominator(v as int, 2, p as int);
        assert(v / 2 == high);
    }
}

proof fn lemma_place(s: int, n: int, k: int)
    requires
        0 < n,
        0 <= k < n,
        0 <= s,
    ensures
        (s * n + k) / n == s,
        (s * n + k) % n == k,
{
    vstd::arithmetic::div_mod::lemma_fundamental_div_mod_converse(s * n + k, n, s, k);
}

/// Unpacking gives back every bit that was packed, with zeros behind them.
pub proof fn symbols_carry_their_bits(bits: Seq<u8>, per_symbol: int)
    requires
        0 < per_symbol < usize::BITS,
        fec::is_bits(bits),
    ensures
        bits_of(symbols_of(bits, per_symbol), per_symbol).len() >= bits.len(),
        bits_of(symbols_of(bits, per_symbol), per_symbol).take(bits.len() as int) == bits,
{
    let symbols = symbols_of(bits, per_symbol);
    let back = bits_of(symbols, per_symbol);
    let n = per_symbol;
    let total = symbols.len() as int;
    let len = bits.len() as int;
    assert(total * n >= len && 0 <= total) by {
        vstd::arithmetic::div_mod::lemma_fundamental_div_mod(len + n - 1, n);
        assert(total == (len + n - 1) / n);
        assert(total * n == len + n - 1 - (len + n - 1) % n) by (nonlinear_arith)
            requires
                len + n - 1 == n * total + (len + n - 1) % n,
        ;
    }
    assert forall|i: int| 0 <= i < len implies #[trigger] back[i] == bits[i] by {
        let s = i / n;
        let k = i % n;
        vstd::arithmetic::div_mod::lemma_fundamental_div_mod(i, n);
        assert(n * s == s * n) by (nonlinear_arith);
        assert(0 <= s < total) by (nonlinear_arith)
            requires
                0 <= i < total * n,
                i == s * n + k,
                0 <= k < n,
        ;
        crate::profile::lemma_pow2_fits(n as nat);
        lemma_number_bound(bits, s * n, n as nat);
        assert(0 <= s * n) by (nonlinear_arith)
            requires
                0 <= s,
                0 < n,
        ;
        lemma_number_bits(bits, s * n, n as nat, k);
    }
    assert(back.take(len) =~= bits);
}

/// A symbol is the number of a tone.
pub proof fn lemma_symbols_are_tones(bits: Seq<u8>, per_symbol: int)
    requires
        0 < per_symbol < usize::BITS,
    ensures
        forall|s: int|
            0 <= s < symbols_of(bits, per_symbol).len() ==> #[trigger] symbols_of(
                bits,
                per_symbol,
            )[s] < power2::pow2(per_symbol as nat),
{
    crate::profile::lemma_pow2_fits(per_symbol as nat);
    assert forall|s: int| 0 <= s < symbols_of(bits, per_symbol).len() implies #[trigger] symbols_of(
        bits,
        per_symbol,
    )[s] < power2::pow2(per_symbol as nat) by {
        lemma_number_bound(bits, s * per_symbol, per_symbol as nat);
    }
}

/// Pack bits into symbols, MSB first; a last symbol that is not full is filled up
/// with zeros.
pub fn bits_to_symbols(bits: &[u8], per_symbol: usize) -> (symbols: Vec<usize>)
    requires
        0 < per_symbol < usize::BITS,
    ensures
        symbols@ == symbols_of(bits@, per_symbol as int),
{
    let len: usize = bits.len();
    let total: usize = ceil_div(len, per_symbol);
    let mut symbols: Vec<usize> = Vec::new();
    proof {
        lemma_symbol_count(len as int, per_symbol as int);
        crate::profile::lemma_pow2_fits(per_symbol as nat);
    }
    let mut s: usize = 0;
    while s < total
        invariant
            s <= total,
            0 < per_symbol < usize::BITS,
            len == bits@.len(),
            total == packet::div_up(len as int, per_symbol as int),
            (total - 1) * per_symbol < len,
            power2::pow2(per_symbol as nat) <= usize::MAX,
            symbols@ =~= symbols_of(bits@, per_symbol as int).take(s as int),
        decreases total - s,
    {
        let ghost at = s * per_symbol;
        assert(0 <= at <= (total - 1) * per_symbol) by (nonlinear_arith)
            requires
                at == s * per_symbol,
                0 <= s <= total - 1,
                0 < per_symbol,
        ;
        let mut sym: usize = 0;
        let mut b: usize = 0;
        let mut idx: usize = s * per_symbol;
        while b < per_symbol
            invariant
                b <= per_symbol < usize::BITS,
                len == bits@.len(),
                at < len,
                0 <= at,
                idx <= len,
                idx == if at + b < len {
                    at + b
                } else {
                    len as int
                },
                sym == number_at(bits@, at, b as nat),
                power2::pow2(per_symbol as nat) <= usize::MAX,
            decreases per_symbol - b,
        {
            let bit: usize = if idx < len {
                (bits[idx] % 2) as usize
            } else {
                0
            };
            proof {
                lemma_number_bound(bits@, at, (b + 1) as nat);
                if b + 1 < per_symbol {
                    power2::lemma_pow2_strictly_increases((b + 1) as nat, per_symbol as nat);
                }
            }
            sym = 2 * sym + bit;
            if idx < len {
                idx = idx + 1;
            }
            b = b + 1;
        }
        symbols.push(sym);
        s = s + 1;
    }
    symbols
}

proof fn lemma_symbol_count(len: int, n: int)
    requires
        0 <= len,
        0 < n,
    ensures
        (packet::div_up(len, n) - 1) * n < len,
{
    let q = len / n;
    let r = len % n;
    vstd::arithmetic::div_mod::lemma_fundamental_div_mod(len, n);
    if r == 0 {
        assert((len + n - 1) / n == q) by (nonlinear_arith)
            requires
                0 < n,
                len == n * q,
        ;
        assert((q - 1) * n < len) by (nonlinear_arith)
            requires
                0 < n,
                len == n * q,
        ;
    } else {
        assert((len + n - 1) / n == q + 1) by (nonlinear_arith)
            requires
                0 < r < n,
                len == n * q + r,
        ;
        assert(q * n < len) by (nonlinear_arith)
            requires
                0 < r,
                len == n * q + r,
        ;
    }
}

/// Unpack symbols to bits, MSB first -- the inverse of [`bits_to_symbols`].
pub fn symbols_to_bits(symbols: &[usize], per_symbol: usize) -> (bits: Vec<u8>)
    requires
        0 < per_symbol < usize::BITS,
        symbols@.len() * per_symbol <= usize::MAX,
    ensures
        bits@ == bits_of(symbols@, per_symbol as int),
        fec::is_bits(bits@),
{
    let mut bits: Vec<u8> = Vec::new();
    let mut s: usize = 0;
    while s < symbols.len()
        invariant
            s <= symbols@.len(),
            0 < per_symbol < usize::BITS,
            bits@.len() == s * per_symbol,
            forall|i: int|
                0 <= i < bits@.len() ==> #[trigger] bits@[i] == bits_of(
                    symbols@,
                    per_symbol as int,
                )[i],
        decreases symbols@.len() - s,
    {
        let ghost done = s * per_symbol;
        assert(0 <= done && done + per_symbol <= symbols@.len() * per_symbol) by (nonlinear_arith)
            requires
                done == s * per_symbol,
                0 <= s < symbols@.len(),
                0 < per_symbol,
        ;
        assert(done + per_symbol == (s + 1) * per_symbol) by (nonlinear_arith)
            requires
                done == s * per_symbol,
        ;
        let symbol: usize = symbols[s];
        let mut weight: usize = 1;
        let mut i: usize = 0;
        proof {
            power2::lemma2_to64();
            crate::profile::lemma_pow2_fits((per_symbol - 1) as nat);
        }
        while i + 1 < per_symbol
            invariant
                i + 1 <= per_symbol < usize::BITS,
                weight == power2::pow2(i as nat),
                power2::pow2((per_symbol - 1) as nat) <= usize::MAX,
            decreases per_symbol - i,
        {
            proof {
                power2::lemma_pow2_unfold((i + 1) as nat);
                if i + 1 < per_symbol - 1 {
                    power2::lemma_pow2_strictly_increases((i + 1) as nat, (per_symbol - 1) as nat);
                }
            }
            weight = weight * 2;
            i = i + 1;
        }
        let mut k: usize = 0;
        while k < per_symbol
            invariant
                k <= per_symbol < usize::BITS,
                0 <= s < symbols@.len(),
                symbol == symbols@[s as int],
                done == s * per_symbol,
                0 <= done,
                done + per_symbol <= symbols@.len() * per_symbol,
                bits@.len() == done + k,
                k < per_symbol ==> weight == power2::pow2((per_symbol - 1 - k) as nat),
                forall|i: int|
                    0 <= i < bits@.len() ==> #[trigger] bits@[i] == bits_of(
                        symbols@,
                        per_symbol as int,
                    )[i],
            decreases per_symbol - k,
        {
            proof {
                power2::lemma_pow2_pos((per_symbol - 1 - k) as nat);
                lemma_place(s as int, per_symbol as int, k as int);
            }
            bits.push((symbol / weight % 2) as u8);
            proof {
                if k + 1 < per_symbol {
                    power2::lemma_pow2_unfold((per_symbol - 1 - k) as nat);
                }
            }
            weight = weight / 2;
            k = k + 1;
        }
        s = s + 1;
    }
    assert(bits@ =~= bits_of(symbols@, per_symbol as int));
    bits
}

/// The samples a run of symbols takes are all there: the window of `n` symbols
/// from `start` lies inside `len` samples.
pub open spec fn window_inside(len: int, start: int, n: int, p: Profile) -> bool {
    0 <= start && start + packet::symbols_span(n, p) <= len
}

/// Where to start reading `n` symbols, or nothing if `start` lies before the audio
/// or the last symbol would end behind it. No symbols are never read.
pub fn read_window(len: usize, start: isize, n: usize, p: &Profile) -> (at: Option<usize>)
    requires
        p.step_len() <= usize::MAX,
        packet::symbols_span(n as int, *p) <= usize::MAX,
    ensures
        match at {
            Some(at) => n > 0 && window_inside(len as int, start as int, n as int, *p) && at
                == start,
            None => n == 0 || !window_inside(len as int, start as int, n as int, *p),
        },
{
    if n == 0 || start < 0 {
        return None;
    }
    let need: usize = span_samples(n, p);
    let first: usize = start as usize;
    if need > len || first > len - need {
        return None;
    }
    Some(first)
}

/// Where symbol `s` of a run starts.
pub open spec fn symbol_start(first: int, s: int, p: Profile) -> int {
    first + s * p.step_len()
}

/// A read that is granted never leaves the audio: every symbol of it lies inside.
pub proof fn granted_reads_stay_inside(len: int, start: int, n: int, p: Profile, s: int)
    requires
        window_inside(len, start, n, p),
        0 <= s < n,
    ensures
        0 <= symbol_start(start, s, p),
        symbol_start(start, s, p) + p.symbol_len() <= len,
{
    let step = p.step_len();
    assert(0 <= s * step <= (n - 1) * step) by (nonlinear_arith)
        requires
            0 <= s <= n - 1,
            0 <= step,
    ;
}

/// The tone that is at least as strong as every other, the highest one where
/// several tie.
pub open spec fn is_winner(energy: Seq<i64>, w: int) -> bool {
    &&& 0 <= w < energy.len()
    &&& forall|i: int| 0 <= i < energy.len() ==> #[trigger] energy[i] <= energy[w]
    &&& forall|i: int| w < i < energy.len() ==> #[trigger] energy[i] < energy[w]
}

/// The winning tone of one symbol. Energies are ranks: a larger number is a
/// stronger tone.
pub fn winner(energy: &[i64]) -> (w: usize)
    requires
        0 < energy@.len(),
    ensures
        is_winner(energy@, w as int),
{
    let mut w: usize = 0;
    let mut i: usize = 1;
    while i < energy.len()
        invariant
            w < i <= energy@.len(),
            forall|j: int| 0 <= j < i ==> #[trigger] energy@[j] <= energy@[w as int],
            forall|j: int| w < j < i ==> #[trigger] energy@[j] < energy@[w as int],
        decreases energy@.len() - i,
    {
        if energy[i] >= energy[w] {
            w = i;
        }
        i = i + 1;
    }
    w
}

/// A run of symbols of which at most symbol `k` differs from what was sent.
pub open spec fn one_wrong_symbol(sent: Seq<usize>, heard: Seq<usize>, k: int) -> bool {
    &&& heard.len() == sent.len()
    &&& forall|s: int| 0 <= s < sent.len() && s != k ==> #[trigger] heard[s] == sent[s]
}

/// A frame of which one symbol was heard wrongly is still read, header and
/// payload: the bits of one symbol are neighbours on the wire, and the interleaver
/// spreads them over different codewords.
pub proof fn frames_survive_one_wrong_symbol(
    payload: Seq<u8>,
    id: int,
    per_symbol: int,
    heard: Seq<usize>,
    k: int,
    start: isize,
    confidence: u128,
    max_payload: usize,
)
    requires
        payload.len() <= 0xFFFF,
        payload.len() <= max_payload,
        crate::profile::profile_of(id) is Some,
        0 < per_symbol <= 12,
        one_wrong_symbol(symbols_of(packet::frame_bits(payload, id), per_symbol), heard, k),
    ensures
        packet::header_result(bits_of(heard, per_symbol), start, confidence, max_payload)
            == packet::header_read(id, payload.len() as int, start, confidence),
        packet::frame_result(
            bits_of(heard, per_symbol),
            start,
            confidence,
            payload.len() as usize,
        ) == packet::frame_read(payload, start, confidence),
{
    let n = per_symbol;
    let wire = packet::frame_bits(payload, id);
    let len = wire.len() as int;
    packet::frame_bits_fill_whole_blocks(payload, id);
    let sent = symbols_of(wire, n);
    symbols_carry_their_bits(wire, n);
    let clean = bits_of(sent, n);
    let bits = bits_of(heard, n);
    let noisy = bits.take(len);
    assert(clean.take(len) == wire);
    assert forall|i: int| 0 <= i < len && #[trigger] wire[i] != noisy[i] implies k * n <= i < k * n
        + 12 by {
        assert(wire[i] == clean.take(len)[i]);
        assert(clean[i] == symbol_bit(sent[i / n] as int, n, i % n));
        assert(bits[i] == symbol_bit(heard[i / n] as int, n, i % n));
        vstd::arithmetic::div_mod::lemma_fundamental_div_mod(i, n);
        assert(n * (i / n) == (i / n) * n) by (nonlinear_arith);
        assert(0 <= i / n < sent.len()) by (nonlinear_arith)
            requires
                0 <= i < sent.len() * n,
                i == (i / n) * n + i % n,
                0 <= i % n < n,
        ;
        assert(i / n == k);
    }
    assert forall|i: int| 0 <= i < noisy.len() implies #[trigger] noisy[i] <= 1 by {
        assert(noisy[i] == bits[i]);
    }
    packet::frames_survive_a_burst(payload, id, bits, k * n, start, confidence, max_payload);
}

/// The first bit of a symbol weighs most: bit `k` of the symbol that carries bits from
/// `s * n` on is bit `s * n + k`, or zero behind the last; and so are the bits read back
/// from a symbol.
pub proof fn the_first_bit_weighs_most(
    bits: Seq<u8>,
    symbols: Seq<usize>,
    n: int,
    s: int,
    k: int,
)
    requires
        0 < n < usize::BITS,
        fec::is_bits(bits),
        0 <= k < n,
        0 <= s,
    ensures
        s < symbols_of(bits, n).len() ==> symbols_of(bits, n)[s] as int / (power2::pow2(
            (n - 1 - k) as nat,
        ) as int) % 2 == (if s * n + k < bits.len() {
            bits[s * n + k] as int
        } else {
            0
        }),
        s < symbols.len() ==> bits_of(symbols, n)[s * n + k] == symbols[s] as int / (power2::pow2(
            (n - 1 - k) as nat,
        ) as int) % 2,
        bits_of(symbols, n).len() == symbols.len() * n,
{
    crate::profile::lemma_pow2_fits(n as nat);
    lemma_number_bound(bits, s * n, n as nat);
    assert(0 <= s * n) by (nonlinear_arith)
        requires
            0 <= s,
            0 < n,
    ;
    lemma_number_bits(bits, s * n, n as nat, k);
    lemma_place(s, n, k);
    if s < symbols.len() {
        assert(0 <= s * n + k < symbols.len() * n) by (nonlinear_arith)
            requires
                0 <= s < symbols.len(),
                0 <= k < n,
        ;
    }
    assert(0 <= symbols.len() * n) by (nonlinear_arith)
        requires
            0 < n,
    ;
}

/// With two bits to a symbol, a symbol is twice its first bit and its second.
pub proof fn two_bits_make_a_symbol(bits: Seq<u8>, s: int)
    requires
        fec::is_bits(bits),
        0 <= s,
        2 * s + 1 < bits.len(),
    ensures
        s < symbols_of(bits, 2).len(),
        symbols_of(bits, 2)[s] == 2 * bits[2 * s] + bits[2 * s + 1],
{
    reveal_with_fuel(number_at, 3);
    assert(s * 2 == 2 * s);
}

/// No symbol is sent that carries nothing, and none is missing.
pub proof fn symbols_hold_all_bits_and_no_more(bits: Seq<u8>, n: int)
    requires
        0 < n,
    ensures
        (symbols_of(bits, n).len() - 1) * n < bits.len() <= symbols_of(bits, n).len() * n,
{
    let len = bits.len() as int;
    let total = packet::div_up(len, n);
    lemma_symbol_count(len, n);
    vstd::arithmetic::div_mod::lemma_fundamental_div_mod(len + n - 1, n);
    assert(len <= total * n && 0 <= total) by (nonlinear_arith)
        requires
            len + n - 1 == n * total + (len + n - 1) % n,
            0 <= (len + n - 1) % n < n,
            0 <= len,
    ;
}

/// A read is granted exactly where it starts inside the audio and its last symbol ends
/// there.
pub proof fn reads_are_granted_where_they_fit(len: int, start: int, n: int, p: Profile)
    requires
        0 < n,
    ensures
        window_inside(len, start, n, p) <==> 0 <= start && symbol_start(start, n - 1, p)
            + p.symbol_len() <= len,
{
}

/// The last of equals wins: a tone behind the others wins exactly where none of them is
/// stronger, and else whoever won before still does.
pub proof fn the_last_of_equal_tones_wins(energy: Seq<i64>, x: i64, w: int)
    ensures
        is_winner(energy.push(x), energy.len() as int) <==> forall|i: int|
            0 <= i < energy.len() ==> #[trigger] energy[i] <= x,
        0 <= w < energy.len() ==> (is_winner(energy.push(x), w) <==> is_winner(energy, w) && x
            < energy[w]),
{
    let all = energy.push(x);
    let n = energy.len() as int;
    if is_winner(all, n) {
        assert forall|i: int| 0 <= i < energy.len() implies #[trigger] energy[i] <= x by {
            assert(all[i] <= all[n]);
        }
    }
    if 0 <= w < n {
        if is_winner(all, w) {
            assert(all[n] < all[w]);
            assert forall|i: int| 0 <= i < n implies #[trigger] energy[i] <= energy[w] by {
                assert(all[i] <= all[w]);
            }
            assert forall|i: int| w < i < n implies #[trigger] energy[i] < energy[w] by {
                assert(all[i] < all[w]);
            }
        }
        if is_winner(energy, w) && x < energy[w] {
            assert forall|i: int| 0 <= i < all.len() implies #[trigger] all[i] <= all[w] by {
                if i < n {
                    assert(energy[i] <= energy[w]);
                }
            }
            assert forall|i: int| w < i < all.len() implies #[trigger] all[i] < all[w] by {
                if i < n {
                    assert(energy[i] < energy[w]);
                }
            }
        }
    }
}

} // verus!

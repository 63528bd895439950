//! Acoustic near-ultrasonic modem: M-FSK + Hamming(7,4) FEC + block interleaving
//! + CRC-16, with a chirp preamble located by a matched filter, and half-duplex
//! transport with stop-and-wait ARQ.
//!
//! This library is the exact part of the modem: everything that is decided on
//! bits, bytes, sample counts and frequencies. The signal processing proper,
//! which works on floating-point audio, sits outside and hands in what it heard
//! as plain values.
//!
//! Durations are fixed-point milliseconds with three decimals (`15_000` is
//! 15.000 ms) and frequencies are fixed-point hertz with three decimals
//! (`18_200_000` is 18 200.000 Hz), so sample counts and tone plans are integer
//! arithmetic that both ends of a link compute identically.
pub mod audio;
pub mod band;
pub mod chirp;
pub mod cli;
pub mod diag;
pub mod dispatch;
pub mod event;
pub mod fec;
pub mod framing;
pub mod mfsk;
pub mod packet;
pub mod profile;
pub mod reassembly;
pub mod receiver;
pub mod sender;
pub mod text;
pub mod trx;

use vstd::prelude::*;

verus! {

/// Fixed at 48 kHz: Nyquist at 24 kHz leaves room for the 18-20 kHz band.
pub const SAMPLE_RATE: u32 = 48_000;

// ---- packet layout timing ------------------------------------------------- //
/// Silence before the chirp. Two jobs: sound cards clip the first few ms of
/// playback, and the receiver uses this quiet run-up to reject false preamble
/// hits.
pub const LEADIN_MS: u32 = 120_000;

/// Chirp -> data gap, letting the chirp's own echo decay.
pub const GAP_MS: u32 = 20_000;

/// Silence after the frame.
pub const TAIL_MS: u32 = 60_000;

/// How much of the run-up the receiver inspects.
pub const LEAD_GUARD_MS: u32 = 50_000;

/// Detection threshold for the normalized matched filter: the rank of 0.20 (see
/// [`chirp`]).
///
/// A clean chirp scores ~0.7 and room noise ~0.02-0.05. The tempting move is to
/// put the threshold just above the noise, but the payload's own M-FSK tones sit
/// inside the chirp's sweep range and partially correlate with it: measured over
/// the air, the data region of a packet reaches 0.21-0.26. Every false lock on
/// the payload blinds the receiver for a header's worth of audio.
///
/// Rather than raise the threshold above 0.26 -- which would drop real chirps
/// that measure as low as 0.30 -- payload hits are rejected structurally by the
/// in-band lead-in silence check. That frees this to sit low enough not to miss
/// weak preambles while keeping a 4-10x margin over room noise.
pub const DETECT_THRESHOLD: i32 = 0x3E4C_CCCD;

/// Samples that fit in a duration: 48 a millisecond, rounded down.
pub open spec fn samples_in(ms: int) -> int {
    48 * ms / 1000
}

/// Samples for a duration in milliseconds, truncated. Both ends must round
/// identically or their sample counts drift apart and nothing decodes.
pub fn ms_samples(ms: u32) -> (n: usize)
    ensures
        n == samples_in(ms as int),
        n <= 0xFFFF_FFFF,
{
    (48 * ms as u64 / 1000) as usize
}

/// So many samples fit in a duration, and one more would not; and of two durations one
/// after the other, no more than one sample is lost.
pub proof fn samples_fill_their_time(a: nat, b: nat)
    ensures
        1000 * samples_in(a as int) <= 48 * a < 1000 * (samples_in(a as int) + 1),
        samples_in(a as int) + samples_in(b as int) <= samples_in((a + b) as int) <= samples_in(
            a as int,
        ) + samples_in(b as int) + 1,
{
}

} // verus!

//! Modulation profiles: HOW to modulate. Tone spacing and symbol timing, with no
//! absolute frequencies in them.
//!
//! A profile is band-agnostic, so FAST/NORMAL/ROBUST applies whether the link
//! runs inaudibly at 18 kHz or audibly at 3 kHz. Where the tones actually land
//! comes from the band. Profile ids travel in the frame header, so a receiver
//! adapts per frame.
use crate::ms_samples;
use vstd::arithmetic::power2;
use vstd::prelude::*;

verus! {

#[derive(Clone, Copy, Debug, PartialEq, Eq)]
pub struct Profile {
    pub name: &'static str,
    /// Hz between adjacent tones.
    pub spacing: u32,
    /// M-FSK order as a power of two: 2 -> 4 tones, 3 -> 8 tones.
    pub bits_per_symbol: u32,
    /// Tone duration.
    pub symbol_ms: u32,
    /// Silence between symbols, for echo decay.
    pub guard_ms: u32,
}

impl Profile {
    /// Samples of one tone.
    pub open spec fn symbol_len(self) -> int {
        crate::samples_in(self.symbol_ms as int)
    }

    /// Samples from the start of one tone to the start of the next.
    pub open spec fn step_len(self) -> int {
        crate::samples_in(self.symbol_ms as int) + crate::samples_in(self.guard_ms as int)
    }

    /// Hz from the lowest tone to the highest.
    pub open spec fn spread(self) -> int {
        self.spacing * (power2::pow2(self.bits_per_symbol as nat) - 1)
    }

    pub fn n_tones(&self) -> (n: usize)
        requires
            self.bits_per_symbol < usize::BITS,
        ensures
            n == power2::pow2(self.bits_per_symbol as nat),
            n >= 1,
    {
        let shift: u32 = self.bits_per_symbol;
        let mut n: usize = 1;
        let mut k: u32 = 0;
        proof {
            power2::lemma2_to64();
        }
        while k < shift
            invariant
                k <= shift < usize::BITS,
                n == power2::pow2(k as nat),
            decreases shift - k,
        {
            proof {
                power2::lemma_pow2_unfold((k + 1) as nat);
                lemma_pow2_fits((k + 1) as nat);
            }
            n = n * 2;
            k = k + 1;
        }
        proof {
            power2::lemma_pow2_pos(shift as nat);
        }
        n
    }

    pub fn symbol_samples(&self) -> (n: usize)
        ensures
            n == self.symbol_len(),
    {
        ms_samples(self.symbol_ms)
    }

    pub fn guard_samples(&self) -> (n: usize)
        ensures
            n == crate::samples_in(self.guard_ms as int),
    {
        ms_samples(self.guard_ms)
    }

    pub fn step_samples(&self) -> (n: usize)
        requires
            self.step_len() <= usize::MAX,
        ensures
            n == self.step_len(),
    {
        self.symbol_samples() + self.guard_samples()
    }

    /// Raw channel bits per second, before the 4/7 FEC overhead, to the nearest
    /// thousandth (a tie goes up).
    pub fn bitrate(&self) -> (r: u64)
        requires
            0 < self.step_len(),
        ensures
            r == (96_000_000 * self.bits_per_symbol + self.step_len()) / (2 * self.step_len()),
    {
        let step: u64 = self.symbol_samples() as u64 + self.guard_samples() as u64;
        (96_000_000 * self.bits_per_symbol as u64 + step) / (2 * step)
    }

    /// Distance from the lowest tone to the highest.
    pub fn tone_spread(&self) -> (hz: u64)
        requires
            self.bits_per_symbol < usize::BITS,
            self.spread() <= u64::MAX,
        ensures
            hz == self.spread(),
    {
        let gaps: u64 = (self.n_tones() - 1) as u64;
        assert(self.spacing as u64 * gaps == self.spread());
        self.spacing as u64 * gaps
    }
}

/// The number of profiles; their ids count from zero.
pub const PROFILE_COUNT: usize = 3;

pub const DEFAULT_PROFILE: usize = 1;

/// Low noise, close range.
///
/// FAST is 4-FSK rather than 8-FSK on purpose. Eight tones only fit the usable
/// 18.0-19.5 kHz window at ~170 Hz spacing, and measured over the air that
/// spacing loses to reverb badly enough to fail whole frames. Four tones 400 Hz
/// apart measured at or near 0% symbol error while still running 64% faster
/// than NORMAL, because the symbols are shorter.
pub open spec fn fast() -> Profile {
    Profile {
        name: "FAST",
        spacing: 400_000,
        bits_per_symbol: 2,
        symbol_ms: 15_000,
        guard_ms: 5_000,
    }
}

/// The default.
pub open spec fn normal() -> Profile {
    Profile {
        name: "NORMAL",
        spacing: 200_000,
        bits_per_symbol: 2,
        symbol_ms: 25_000,
        guard_ms: 8_000,
    }
}

/// Noisy rooms, or more than two metres.
pub open spec fn robust() -> Profile {
    Profile {
        name: "ROBUST",
        spacing: 300_000,
        bits_per_symbol: 2,
        symbol_ms: 45_000,
        guard_ms: 15_000,
    }
}

/// The profile with this id.
pub open spec fn profile_of(id: int) -> Option<Profile> {
    if id == 0 {
        Some(fast())
    } else if id == 1 {
        Some(normal())
    } else if id == 2 {
        Some(robust())
    } else {
        None
    }
}

/// The profile with this id, if there is one.
pub fn profile(id: usize) -> (p: Option<Profile>)
    ensures
        p == profile_of(id as int),
{
    if id == 0 {
        Some(
            Profile {
                name: "FAST",
                spacing: 400_000,
                bits_per_symbol: 2,
                symbol_ms: 15_000,
                guard_ms: 5_000,
            },
        )
    } else if id == 1 {
        Some(
            Profile {
                name: "NORMAL",
                spacing: 200_000,
                bits_per_symbol: 2,
                symbol_ms: 25_000,
                guard_ms: 8_000,
            },
        )
    } else if id == 2 {
        Some(
            Profile {
                name: "ROBUST",
                spacing: 300_000,
                bits_per_symbol: 2,
                symbol_ms: 45_000,
                guard_ms: 15_000,
            },
        )
    } else {
        None
    }
}

/// All ids, `first` ahead of the others, which keep their order. An id that no
/// profile has moves nothing.
pub open spec fn preference(first: int) -> Seq<usize> {
    Seq::new(
        PROFILE_COUNT as nat,
        |k: int|
            (if first >= PROFILE_COUNT {
                k
            } else if k == 0 {
                first
            } else if k <= first {
                k - 1
            } else {
                k
            }) as usize,
    )
}

/// Ids in the order a receiver should try them, our own setting first.
pub fn profiles_preferring(first: usize) -> (ids: Vec<usize>)
    ensures
        ids@ == preference(first as int),
{
    let mut ids: Vec<usize> = Vec::new();
    if first < PROFILE_COUNT {
        ids.push(first);
    }
    let mut id: usize = 0;
    while id < PROFILE_COUNT
        invariant
            id <= PROFILE_COUNT,
            ids@.len() == id + (if first < PROFILE_COUNT && id <= first {
                1int
            } else {
                0
            }),
            ids@.len() <= PROFILE_COUNT,
            forall|k: int| 0 <= k < ids@.len() ==> #[trigger] ids@[k] == preference(first as int)[k],
        decreases PROFILE_COUNT - id,
    {
        if id != first {
            ids.push(id);
        }
        id = id + 1;
    }
    assert(ids@ =~= preference(first as int));
    ids
}

/// A receiver that tries the ids in this order tries every profile exactly once,
/// and its own setting before any other.
pub proof fn preference_tries_every_profile_once(first: int)
    requires
        0 <= first,
    ensures
        preference(first).no_duplicates(),
        forall|id: usize| #[trigger] preference(first).contains(id) <==> id < PROFILE_COUNT,
        first < PROFILE_COUNT ==> preference(first)[0] == first,
{
    let ids = preference(first);
    assert forall|id: usize| id < PROFILE_COUNT implies #[trigger] ids.contains(id) by {
        let at: int = if first >= PROFILE_COUNT {
            id as int
        } else if id == first {
            0
        } else if id < first {
            id + 1
        } else {
            id as int
        };
        assert(ids[at] == id);
    }
}

/// Widest base->top tone distance any profile needs: used when checking that a
/// retuned band still fits under Nyquist.
pub fn max_tone_spread() -> (hz: u64)
    ensures
        hz == 1_200_000,
        forall|id: int| (#[trigger] profile_of(id)) is Some ==> profile_of(id).unwrap().spread() <= hz,
        exists|id: int| (#[trigger] profile_of(id)) is Some && profile_of(id).unwrap().spread() == hz,
{
    proof {
        power2::lemma2_to64();
        assert(profile_of(0).unwrap().spread() == 1_200_000);
        assert(profile_of(1).unwrap().spread() == 600_000);
        assert(profile_of(2).unwrap().spread() == 900_000);
    }
    let mut widest: u64 = 0;
    let mut id: usize = 0;
    while id < PROFILE_COUNT
        invariant
            id <= PROFILE_COUNT,
            profile_of(0).unwrap().spread() == 1_200_000,
            profile_of(1).unwrap().spread() == 600_000,
            profile_of(2).unwrap().spread() == 900_000,
            widest == (if id == 0 {
                0int
            } else {
                1_200_000
            }),
        decreases PROFILE_COUNT - id,
    {
        if let Some(p) = profile(id) {
            let spread: u64 = p.tone_spread();
            if spread > widest {
                widest = spread;
            }
        }
        id = id + 1;
    }
    widest
}

/// A power of two below the word size fits in a word.
pub proof fn lemma_pow2_fits(k: nat)
    requires
        k < usize::BITS,
    ensures
        power2::pow2(k) <= usize::MAX,
{
    power2::lemma2_to64();
    power2::lemma2_to64_rest();
    if usize::BITS == 32 {
        if k < 31 {
            power2::lemma_pow2_strictly_increases(k, 31);
        }
    } else {
        if k < 63 {
            power2::lemma_pow2_strictly_increases(k, 63);
        }
    }
}

/// The profiles that do not come first keep their order.
pub proof fn preference_keeps_the_others_in_order(first: int, i: int, j: int)
    requires
        0 <= first,
        0 <= i < j < 3,
        first < 3 ==> i > 0,
    ensures
        preference(first).len() == 3,
        preference(first)[i] < preference(first)[j],
{
}

/// Neighbouring tones start a tone and its guard apart, and the tones of a profile lie
/// its spacing apart, one gap fewer than there are tones.
pub proof fn steps_and_spreads_add_up(p: Profile)
    ensures
        p.step_len() - p.symbol_len() == crate::samples_in(p.guard_ms as int),
        p.symbol_len() == crate::samples_in(p.symbol_ms as int),
        p.spread() + p.spacing == p.spacing * power2::pow2(p.bits_per_symbol as nat),
{
    let n = power2::pow2(p.bits_per_symbol as nat) as int;
    assert(p.spacing * (n - 1) + p.spacing == p.spacing * n) by (nonlinear_arith);
}

/// There are three profiles, all of four tones; from the first to the last their tones,
/// and their steps, take longer.
pub proof fn slower_profiles_take_longer(id: int)
    ensures
        profile_of(id) is Some <==> 0 <= id <= 2,
        profile_of(id) matches Some(p) ==> {
            &&& p.bits_per_symbol == 2
            &&& p.symbol_len() == (if id == 0 {
                720int
            } else if id == 1 {
                1_200
            } else {
                2_160
            })
            &&& p.step_len() == (if id == 0 {
                960int
            } else if id == 1 {
                1_584
            } else {
                2_880
            })
        },
{
}

} // verus!

//! What the chirp matched filter's output means.
//!
//! A 60 ms linear sweep is matched-filtered against the incoming stream; the
//! normalized correlation at every place is a score in `[0, 1]`. Computing the
//! scores is signal processing. Which of them are preambles is decided here.
//!
//! A score is an `i32` rank: the bits of an IEEE single, with the magnitude bits
//! of negative values inverted, so that ranks order as the total order of the
//! scores does. A positive score is its own bits.
use crate::band::Band;
use crate::ms_samples;
use crate::text;
use crate::text::{push_decimal, push_fixed};
use crate::{DETECT_THRESHOLD, LEAD_GUARD_MS};
use vstd::arithmetic::power2;
use vstd::prelude::*;

verus! {

// --------------------------------------------------------------------------- //
// Scores
// --------------------------------------------------------------------------- //
/// The rank of something that is not a number, of either sign.
pub open spec fn is_nan(rank: i32) -> bool {
    rank > 0x7F80_0000 || rank < -0x7F80_0001
}

/// The score `a` is at least the score `b`. Zero has two ranks, and what is not a
/// number compares with nothing.
pub open spec fn at_least(a: i32, b: i32) -> bool {
    !is_nan(a) && !is_nan(b) && (a >= b || (a == -1 && b == 0))
}

/// The score `a` is above the score `b`.
pub open spec fn above(a: i32, b: i32) -> bool {
    !is_nan(a) && !is_nan(b) && a > b && !(a == 0 && b == -1)
}

/// The larger of two scores; what is not a number gives way.
pub open spec fn higher(a: i32, b: i32) -> i32 {
    if is_nan(a) {
        b
    } else if is_nan(b) || a >= b {
        a
    } else {
        b
    }
}

fn nan_rank(rank: i32) -> (yes: bool)
    ensures
        yes == is_nan(rank),
{
    rank > 0x7F80_0000 || rank < -0x7F80_0001
}

pub fn score_at_least(a: i32, b: i32) -> (yes: bool)
    ensures
        yes == at_least(a, b),
{
    !nan_rank(a) && !nan_rank(b) && (a >= b || (a == -1 && b == 0))
}

pub fn score_above(a: i32, b: i32) -> (yes: bool)
    ensures
        yes == above(a, b),
{
    !nan_rank(a) && !nan_rank(b) && a > b && !(a == 0 && b == -1)
}

pub fn higher_score(a: i32, b: i32) -> (c: i32)
    ensures
        c == higher(a, b),
{
    if nan_rank(a) {
        b
    } else if nan_rank(b) || a >= b {
        a
    } else {
        b
    }
}

/// The magnitude bits of a rank: exponent and fraction.
pub open spec fn magnitude_bits(rank: i32) -> int {
    if rank < 0 {
        -1 - rank
    } else {
        rank as int
    }
}

/// The significand of a finite score.
pub open spec fn significand(rank: i32) -> int {
    let bits = magnitude_bits(rank);
    if bits / 0x80_0000 == 0 {
        bits % 0x80_0000
    } else {
        bits % 0x80_0000 + 0x80_0000
    }
}

/// A finite score is its significand times two to this, less 150.
pub open spec fn exponent(rank: i32) -> int {
    let e = magnitude_bits(rank) / 0x80_0000;
    if e == 0 {
        1
    } else {
        e
    }
}

/// A score with two digits behind the point.
pub open spec fn score_text(rank: i32) -> Seq<char> {
    score_digits(rank, 2)
}

/// A score with `places` digits behind the point.
pub open spec fn score_digits(rank: i32, places: nat) -> Seq<char> {
    let sign = if rank < 0 {
        "-"@
    } else {
        Seq::empty()
    };
    if is_nan(rank) {
        "NaN"@
    } else if magnitude_bits(rank) == 0x7F80_0000 {
        sign + "inf"@
    } else if exponent(rank) <= 150 {
        sign + text::fixed_point(
            text::pow10(places) * significand(rank),
            power2::pow2((150 - exponent(rank)) as nat),
            places,
        )
    } else {
        sign + text::decimal(
            (significand(rank) * power2::pow2((exponent(rank) - 150) as nat)) as nat,
        ) + (if places == 2 {
            ".00"@
        } else {
            ".000"@
        })
    }
}

/// `x` doubled `k` times.
fn double(x: u128, k: u32) -> (y: u128)
    requires
        x * power2::pow2(k as nat) <= u128::MAX,
    ensures
        y == x * power2::pow2(k as nat),
{
    let mut y: u128 = x;
    let mut i: u32 = 0;
    proof {
        power2::lemma2_to64();
        assert(x * 1 == x);
    }
    while i < k
        invariant
            i <= k,
            y == x * power2::pow2(i as nat),
            x * power2::pow2(k as nat) <= u128::MAX,
        decreases k - i,
    {
        proof {
            power2::lemma_pow2_unfold((i + 1) as nat);
            let here = power2::pow2(i as nat);
            let next = power2::pow2((i + 1) as nat);
            let last = power2::pow2(k as nat);
            assert(x * next == 2 * (x * here)) by (nonlinear_arith)
                requires
                    next == 2 * here,
            ;
            if i + 1 < k {
                power2::lemma_pow2_strictly_increases((i + 1) as nat, k as nat);
            }
            assert(x * next <= x * last) by (nonlinear_arith)
                requires
                    next <= last,
                    0 <= x,
            ;
        }
        y = 2 * y;
        i = i + 1;
    }
    y
}

/// Append a score with two digits behind the point.
pub fn push_score(s: &mut String, rank: i32)
    ensures
        final(s)@ == old(s)@ + score_text(rank),
{
    push_score_digits(s, rank, 2);
}

/// Append a score with two or three digits behind the point.
pub fn push_score_digits(s: &mut String, rank: i32, places: u8)
    requires
        places == 2 || places == 3,
    ensures
        final(s)@ == old(s)@ + score_digits(rank, places as nat),
{
    reveal_with_fuel(text::pow10, 4);
    let scale: i128 = if places == 2 {
        100
    } else {
        1000
    };
    if nan_rank(rank) {
        s.append("NaN");
        return;
    }
    let bits: u32 = if rank < 0 {
        (-1 - rank) as u32
    } else {
        rank as u32
    };
    if rank < 0 {
        s.append("-");
    }
    if bits == 0x7F80_0000 {
        s.append("inf");
        assert(s@ =~= old(s)@ + score_digits(rank, places as nat));
        return;
    }
    let e: u32 = bits / 0x80_0000;
    let f: u32 = bits % 0x80_0000;
    let significand: u32 = if e == 0 {
        f
    } else {
        f + 0x80_0000
    };
    let exponent: u32 = if e == 0 {
        1
    } else {
        e
    };
    assert(significand < 0x100_0000);
    assert(exponent <= 254);
    if exponent <= 150 {
        let k: u32 = 150 - exponent;
        if k <= 100 {
            proof {
                lemma_pow2_below_u128(k as nat);
            }
            let unit: u128 = double(1, k);
            proof {
                power2::lemma_pow2_pos(k as nat);
            }
            push_fixed(s, scale * significand as i128, unit, places);
        } else {
            proof {
                lemma_rounds_to_nothing((scale * significand) as nat, k as nat, places as nat);
            }
            push_fixed(s, 0, 1, places);
        }
    } else {
        let k: u32 = exponent - 150;
        proof {
            lemma_pow2_below_u128(k as nat);
            power2::lemma_pow2_adds(24, k as nat);
            power2::lemma2_to64();
            if k < 104 {
                power2::lemma_pow2_strictly_increases(k as nat, 104);
            }
            power2::lemma_pow2_adds(24, 104);
            power2::lemma_pow2_adds(64, 64);
            power2::lemma2_to64_rest();
            let p = power2::pow2(k as nat);
            let q = power2::pow2(104);
            assert(significand * p <= (0x100_0000 - 1) * q) by (nonlinear_arith)
                requires
                    significand <= 0x100_0000 - 1,
                    p <= q,
                    0 <= significand,
                    0 <= p,
            ;
        }
        push_decimal(s, double(significand as u128, k));
        s.append(
            if places == 2 {
                ".00"
            } else {
                ".000"
            },
        );
    }
    assert(s@ =~= old(s)@ + score_digits(rank, places as nat));
}

proof fn lemma_pow2_below_u128(k: nat)
    requires
        k <= 104,
    ensures
        power2::pow2(k) <= u128::MAX,
{
    power2::lemma2_to64_rest();
    power2::lemma_pow2_adds(64, 64);
    power2::lemma_pow2_strictly_increases(k, 128);
}

/// A number that is less than half the unit rounds to nothing.
proof fn lemma_rounds_to_nothing(n: nat, k: nat, places: nat)
    requires
        n < 0x10_0000_0000,
        100 < k,
    ensures
        text::fixed_point(n as int, power2::pow2(k), places) == text::fixed_point(0, 1, places),
{
    power2::lemma2_to64();
    power2::lemma_pow2_strictly_increases(37, k);
    power2::lemma2_to64_rest();
    let unit = power2::pow2(k);
    assert(2 * n < unit);
    vstd::arithmetic::div_mod::lemma_small_mod(n, unit);
    vstd::arithmetic::div_mod::lemma_basic_div(n as int, unit as int);
    assert(text::rounded(n, unit) == 0);
    assert(text::rounded(0, 1) == 0);
}

/// The place of the strongest score among `lo..=hi`, the last where several tie.
pub open spec fn is_strongest(sc: Seq<i32>, lo: int, hi: int, at: int) -> bool {
    &&& lo <= at <= hi
    &&& forall|i: int| lo <= i <= hi ==> #[trigger] sc[i] <= sc[at]
    &&& forall|i: int| at < i <= hi ==> #[trigger] sc[i] < sc[at]
}

fn strongest_in(sc: &[i32], lo: usize, hi: usize) -> (at: usize)
    requires
        lo <= hi < sc@.len(),
    ensures
        is_strongest(sc@, lo as int, hi as int, at as int),
{
    let mut at: usize = lo;
    let mut i: usize = lo;
    while i < hi
        invariant
            lo <= at <= i <= hi < sc@.len(),
            is_strongest(sc@, lo as int, i as int, at as int),
        decreases hi - i,
    {
        i = i + 1;
        if sc[i] >= sc[at] {
            at = i;
        }
    }
    at
}

/// The place of the strongest score, the last where several tie.
pub fn strongest(sc: &[i32]) -> (at: Option<usize>)
    ensures
        match at {
            Some(at) => is_strongest(sc@, 0, sc@.len() - 1, at as int),
            None => sc@.len() == 0,
        },
{
    if sc.len() == 0 {
        None
    } else {
        Some(strongest_in(sc, 0, sc.len() - 1))
    }
}

// --------------------------------------------------------------------------- //
// Noise floor
// --------------------------------------------------------------------------- //
/// The middle of the scores in ascending order, the upper one of two; zero where
/// there are none.
pub open spec fn middle(sc: Seq<i32>) -> i32 {
    if sc.len() == 0 {
        0
    } else {
        sc.sort_by(|a: i32, b: i32| a <= b)[sc.len() as int / 2]
    }
}

/// How many scores are no higher than `v`.
pub open spec fn count_up_to(sc: Seq<i32>, v: int) -> nat
    decreases sc.len(),
{
    if sc.len() == 0 {
        0
    } else {
        count_up_to(sc.drop_last(), v) + (if sc.last() <= v {
            1nat
        } else {
            0
        })
    }
}

proof fn lemma_count_is_of_the_multiset(sc: Seq<i32>, v: int)
    ensures
        count_up_to(sc, v) == sc.to_multiset().filter(|x: i32| x <= v).len(),
    decreases sc.len(),
{
    broadcast use vstd::multiset::group_multiset_axioms;
    broadcast use vstd::seq_lib::group_to_multiset_ensures;

    let f = |x: i32| x <= v;
    if sc.len() == 0 {
        assert(sc.to_multiset().filter(f) =~= vstd::multiset::Multiset::empty());
    } else {
        let rest = sc.drop_last();
        lemma_count_is_of_the_multiset(rest, v);
        assert(sc =~= rest.push(sc.last()));
        let m = rest.to_multiset();
        assert(sc.to_multiset() =~= m.insert(sc.last()));
        if sc.last() <= v {
            assert(m.insert(sc.last()).filter(f) =~= m.filter(f).insert(sc.last()));
        } else {
            assert(m.insert(sc.last()).filter(f) =~= m.filter(f));
        }
    }
}

/// In ascending order, exactly the first entries are no higher than a bound that
/// the next entry exceeds.
proof fn lemma_count_in_order(s: Seq<i32>, v: int, n: int)
    requires
        forall|i: int, j: int| 0 <= i < j < s.len() ==> #[trigger] s[i] <= #[trigger] s[j],
        0 <= n <= s.len(),
        forall|i: int| 0 <= i < n ==> #[trigger] s[i] <= v,
        forall|i: int| n <= i < s.len() ==> #[trigger] s[i] > v,
    ensures
        count_up_to(s, v) == n,
    decreases s.len(),
{
    if s.len() > 0 {
        let rest = s.drop_last();
        if n == s.len() {
            assert(s[s.len() - 1] <= v);
            lemma_count_in_order(rest, v, n - 1);
        } else {
            assert(s[s.len() - 1] > v);
            lemma_count_in_order(rest, v, n);
        }
    }
}

/// How the middle shows in the counts.
proof fn lemma_middle(sc: Seq<i32>, v: i32)
    requires
        sc.len() > 0,
        count_up_to(sc, v as int) > sc.len() / 2,
        count_up_to(sc, v - 1) <= sc.len() / 2,
    ensures
        middle(sc) == v,
{
    let leq = |a: i32, b: i32| a <= b;
    sc.lemma_sort_by_ensures(leq);
    let s = sc.sort_by(leq);
    broadcast use vstd::seq_lib::group_to_multiset_ensures;

    assert(s.to_multiset().len() == s.len() && sc.to_multiset().len() == sc.len());
    assert(s.to_multiset() == sc.to_multiset());
    lemma_count_is_of_the_multiset(sc, v as int);
    lemma_count_is_of_the_multiset(s, v as int);
    lemma_count_is_of_the_multiset(sc, v - 1);
    lemma_count_is_of_the_multiset(s, v - 1);
    let n = sc.len() as int / 2;
    assert forall|i: int, j: int| 0 <= i < j < s.len() implies #[trigger] s[i]
        <= #[trigger] s[j] by {
        assert(leq(s[i], s[j]));
    }
    let m = s[n];
    if m > v {
        let k = lemma_split(s, v as int, n);
        lemma_count_in_order(s, v as int, k);
    }
    if m < v {
        let k = lemma_split(s, v - 1, n);
        lemma_count_in_order(s, v - 1, k);
    }
}

/// Where an ascending sequence passes `v`, seen from entry `n`.
proof fn lemma_split(s: Seq<i32>, v: int, n: int) -> (k: int)
    requires
        forall|i: int, j: int| 0 <= i < j < s.len() ==> #[trigger] s[i] <= #[trigger] s[j],
        0 <= n < s.len(),
    ensures
        0 <= k <= s.len(),
        forall|i: int| 0 <= i < k ==> #[trigger] s[i] <= v,
        forall|i: int| k <= i < s.len() ==> #[trigger] s[i] > v,
        s[n] > v ==> k <= n,
        s[n] <= v ==> k > n,
    decreases s.len(),
{
    lemma_split_from(s, v, 0)
}

proof fn lemma_split_from(s: Seq<i32>, v: int, from: int) -> (k: int)
    requires
        forall|i: int, j: int| 0 <= i < j < s.len() ==> #[trigger] s[i] <= #[trigger] s[j],
        0 <= from <= s.len(),
        forall|i: int| 0 <= i < from ==> #[trigger] s[i] <= v,
    ensures
        from <= k <= s.len(),
        forall|i: int| 0 <= i < k ==> #[trigger] s[i] <= v,
        forall|i: int| k <= i < s.len() ==> #[trigger] s[i] > v,
    decreases s.len() - from,
{
    if from < s.len() && s[from] <= v {
        lemma_split_from(s, v, from + 1)
    } else {
        from
    }
}

fn count(sc: &[i32], v: i32) -> (n: usize)
    ensures
        n == count_up_to(sc@, v as int),
{
    let mut n: usize = 0;
    let mut i: usize = 0;
    assert(sc@.take(0) =~= Seq::<i32>::empty());
    while i < sc.len()
        invariant
            n <= i <= sc@.len(),
            n == count_up_to(sc@.take(i as int), v as int),
        decreases sc@.len() - i,
    {
        assert(sc@.take(i + 1).drop_last() =~= sc@.take(i as int));
        if sc[i] <= v {
            n = n + 1;
        }
        i = i + 1;
    }
    assert(sc@.take(i as int) =~= sc@);
    n
}

/// The median score: the noise floor of a stretch of audio that is mostly noise.
///
/// Found by halving the range of values rather than by sorting.
pub fn median(sc: &[i32]) -> (m: i32)
    ensures
        m == middle(sc@),
{
    if sc.len() == 0 {
        return 0;
    }
    let half: usize = sc.len() / 2;
    let mut lo: i64 = i32::MIN as i64;
    let mut hi: i64 = i32::MAX as i64;
    proof {
        lemma_count_extremes(sc@);
    }
    while lo < hi
        invariant
            sc@.len() > 0,
            half == sc@.len() / 2,
            i32::MIN <= lo <= hi <= i32::MAX,
            count_up_to(sc@, lo - 1) <= half,
            count_up_to(sc@, hi as int) > half,
        decreases hi - lo,
    {
        let sum: i64 = lo + hi;
        let mid: i64 = if sum >= 0 {
            sum / 2
        } else {
            -((1 - sum) / 2)
        };
        assert(lo <= mid < hi);
        if count(sc, mid as i32) > half {
            hi = mid;
        } else {
            lo = mid + 1;
        }
    }
    proof {
        lemma_middle(sc@, lo as i32);
    }
    lo as i32
}

proof fn lemma_count_extremes(sc: Seq<i32>)
    ensures
        count_up_to(sc, i32::MIN - 1) == 0,
        count_up_to(sc, i32::MAX as int) == sc.len(),
    decreases sc.len(),
{
    if sc.len() > 0 {
        lemma_count_extremes(sc.drop_last());
    }
}

// --------------------------------------------------------------------------- //
// Preambles
// --------------------------------------------------------------------------- //
/// What there is to know of the matched filter for one band's chirp.
#[derive(Clone, Copy, Debug)]
pub struct PreambleDetector {
    pub band: Band,
    pub threshold: i32,
}

/// The first place from `i` on whose score reaches the threshold, or the end.
pub open spec fn next_hit(sc: Seq<i32>, threshold: i32, i: int) -> int
    decreases sc.len() - i,
{
    if i >= sc.len() || at_least(sc[i], threshold) {
        i
    } else {
        next_hit(sc, threshold, i + 1)
    }
}

/// The last place of the event that has reached `hi`, looking from `j` on: a place
/// that reaches the threshold no more than `m` behind the last one carries the
/// event on.
pub open spec fn event_end(sc: Seq<i32>, threshold: i32, m: int, hi: int, j: int) -> int
    decreases sc.len() - j,
{
    if j >= sc.len() || j - hi > m {
        hi
    } else if at_least(sc[j], threshold) {
        event_end(sc, threshold, m, j, j + 1)
    } else {
        event_end(sc, threshold, m, hi, j + 1)
    }
}

/// The strongest place among `lo..=hi`, the last where several tie.
pub open spec fn strongest_of(sc: Seq<i32>, lo: int, hi: int) -> int
    decreases hi - lo,
{
    if hi <= lo {
        lo
    } else {
        let before = strongest_of(sc, lo, hi - 1);
        if sc[hi] >= sc[before] {
            hi
        } else {
            before
        }
    }
}

/// The strongest place of every event from `i` on, in the order of the audio.
pub open spec fn events(sc: Seq<i32>, threshold: i32, m: int, i: int) -> Seq<usize>
    decreases sc.len() - i,
{
    let lo = next_hit(sc, threshold, i);
    let hi = event_end(sc, threshold, m, lo, lo + 1);
    if lo >= sc.len() || hi < i || hi >= sc.len() {
        Seq::empty()
    } else {
        seq![strongest_of(sc, lo, hi) as usize] + events(sc, threshold, m, hi + 1)
    }
}

/// Strongest first; where two tie, the earlier one first.
pub open spec fn strongest_first(sc: Seq<i32>, places: Seq<usize>) -> bool {
    forall|i: int, j: int|
        0 <= i < j < places.len() ==> {
            let a = #[trigger] places[i];
            let b = #[trigger] places[j];
            sc[a as int] > sc[b as int] || (sc[a as int] == sc[b as int] && a < b)
        }
}

proof fn lemma_next_hit(sc: Seq<i32>, threshold: i32, i: int)
    requires
        0 <= i <= sc.len(),
    ensures
        i <= next_hit(sc, threshold, i) <= sc.len(),
        next_hit(sc, threshold, i) < sc.len() ==> at_least(
            sc[next_hit(sc, threshold, i)],
            threshold,
        ),
        forall|j: int|
            i <= j < next_hit(sc, threshold, i) ==> !at_least(#[trigger] sc[j], threshold),
    decreases sc.len() - i,
{
    if i < sc.len() && !at_least(sc[i], threshold) {
        lemma_next_hit(sc, threshold, i + 1);
    }
}

proof fn lemma_event_end(sc: Seq<i32>, threshold: i32, m: int, hi: int, j: int)
    requires
        0 <= hi < j,
        hi < sc.len(),
        0 <= m,
        forall|k: int| hi < k < j && k < sc.len() ==> !at_least(#[trigger] sc[k], threshold),
    ensures
        ({
            let end = event_end(sc, threshold, m, hi, j);
            &&& hi <= end < sc.len()
            &&& forall|k: int|
                end < k < sc.len() && k - end <= m ==> !at_least(#[trigger] sc[k], threshold)
        }),
    decreases sc.len() - j,
{
    if j < sc.len() && j - hi <= m {
        if at_least(sc[j], threshold) {
            lemma_event_end(sc, threshold, m, j, j + 1);
        } else {
            lemma_event_end(sc, threshold, m, hi, j + 1);
        }
    }
}

/// What is found as the strongest place is it.
pub proof fn lemma_strongest_of(sc: Seq<i32>, lo: int, hi: int)
    requires
        lo <= hi,
    ensures
        is_strongest(sc, lo, hi, strongest_of(sc, lo, hi)),
    decreases hi - lo,
{
    if lo < hi {
        lemma_strongest_of(sc, lo, hi - 1);
    }
}

/// The strongest place is unique.
pub proof fn lemma_one_strongest(sc: Seq<i32>, lo: int, hi: int, at: int)
    requires
        is_strongest(sc, lo, hi, at),
    ensures
        at == strongest_of(sc, lo, hi),
{
    lemma_strongest_of(sc, lo, hi);
    let other = strongest_of(sc, lo, hi);
    assert(sc[at] <= sc[other] && sc[other] <= sc[at]);
}

/// Two events are more than a template length apart.
proof fn lemma_events(sc: Seq<i32>, threshold: i32, m: int, i: int)
    requires
        0 <= i <= sc.len() <= usize::MAX,
        0 <= m,
    ensures
        ({
            let e = events(sc, threshold, m, i);
            &&& forall|k: int|
                0 <= k < e.len() ==> next_hit(sc, threshold, i) <= #[trigger] e[k] < sc.len()
            &&& forall|k: int, l: int|
                0 <= k < l < e.len() ==> (#[trigger] e[l]) - (#[trigger] e[k]) > m
            &&& forall|j: int|
                i <= j < sc.len() && at_least(#[trigger] sc[j], threshold) ==> exists|k: int|
                    0 <= k < e.len() && sc[(#[trigger] e[k]) as int] >= sc[j]
        }),
    decreases sc.len() - i,
{
    let e = events(sc, threshold, m, i);
    let lo = next_hit(sc, threshold, i);
    let hi = event_end(sc, threshold, m, lo, lo + 1);
    lemma_next_hit(sc, threshold, i);
    if lo < sc.len() {
        lemma_event_end(sc, threshold, m, lo, lo + 1);
        lemma_strongest_of(sc, lo, hi);
        lemma_events(sc, threshold, m, hi + 1);
        lemma_next_hit(sc, threshold, hi + 1);
        let rest = events(sc, threshold, m, hi + 1);
        assert(e[0] == strongest_of(sc, lo, hi));
        assert forall|k: int| 0 < k < e.len() implies #[trigger] e[k] == rest[k - 1] by {}
        let far = next_hit(sc, threshold, hi + 1);
        assert(far >= sc.len() || far - hi > m);
        assert forall|j: int| i <= j < sc.len() && at_least(#[trigger] sc[j], threshold) implies exists|
            k: int,
        |
            0 <= k < e.len() && sc[(#[trigger] e[k]) as int] >= sc[j] by {
            if j <= hi {
                assert(sc[e[0] as int] >= sc[j]);
            } else {
                let k = choose|k: int|
                    0 <= k < rest.len() && sc[(#[trigger] rest[k]) as int] >= sc[j];
                assert(e[k + 1] == rest[k]);
            }
        }
    }
}

/// Peaks are distinct events: any two are more than a template length apart. And
/// none is missed: wherever the score reaches the threshold, some peak is at least
/// as strong.
pub proof fn peaks_are_the_distinct_events(
    sc: Seq<i32>,
    threshold: i32,
    m: int,
    peaks: Seq<usize>,
    j: int,
)
    requires
        sc.len() <= usize::MAX,
        0 <= m,
        peaks.to_multiset() == events(sc, threshold, m, 0).to_multiset(),
    ensures
        forall|k: int, l: int|
            0 <= k < peaks.len() && 0 <= l < peaks.len() && #[trigger] peaks[k] < #[trigger] peaks[l]
                ==> peaks[l] - peaks[k] > m,
        0 <= j < sc.len() && at_least(sc[j], threshold) ==> exists|k: int|
            0 <= k < peaks.len() && sc[(#[trigger] peaks[k]) as int] >= sc[j],
{
    broadcast use vstd::seq_lib::group_to_multiset_ensures;

    let e = events(sc, threshold, m, 0);
    lemma_events(sc, threshold, m, 0);
    assert forall|k: int, l: int|
        0 <= k < peaks.len() && 0 <= l < peaks.len() && #[trigger] peaks[k]
            < #[trigger] peaks[l] implies peaks[l] - peaks[k] > m by {
        assert(peaks.contains(peaks[k]) && peaks.contains(peaks[l]));
        assert(e.to_multiset().count(peaks[k]) > 0 && e.to_multiset().count(peaks[l]) > 0);
        let a = choose|a: int| 0 <= a < e.len() && e[a] == peaks[k];
        let b = choose|b: int| 0 <= b < e.len() && e[b] == peaks[l];
        if b < a {
            assert(e[a] - e[b] > m);
        }
        assert(e[b] - e[a] > m);
    }
    if 0 <= j < sc.len() && at_least(sc[j], threshold) {
        let k = choose|k: int| 0 <= k < e.len() && sc[(#[trigger] e[k]) as int] >= sc[j];
        assert(e.contains(e[k]));
        assert(peaks.to_multiset().count(e[k]) > 0);
        let p = choose|p: int| 0 <= p < peaks.len() && peaks[p] == e[k];
        assert(sc[peaks[p] as int] >= sc[j]);
    }
}

impl PreambleDetector {
    /// The template length in samples.
    pub open spec fn template_len(self) -> int {
        crate::samples_in(self.band.chirp_ms as int)
    }

    /// The distinct events of these scores, strongest first.
    pub open spec fn are_peaks(self, sc: Seq<i32>, places: Seq<usize>) -> bool {
        &&& strongest_first(sc, places)
        &&& places.to_multiset() == events(
            sc,
            self.threshold,
            self.template_len(),
            0,
        ).to_multiset()
        &&& forall|k: int| 0 <= k < places.len() ==> #[trigger] places[k] < sc.len()
    }

    pub fn new(band: Band, threshold: i32) -> (det: Self)
        ensures
            det.band == band,
            det.threshold == threshold,
    {
        PreambleDetector { band, threshold }
    }

    pub fn with_default_threshold(band: Band) -> (det: Self)
        ensures
            det.band == band,
            det.threshold == DETECT_THRESHOLD,
    {
        Self::new(band, DETECT_THRESHOLD)
    }

    /// Template length in samples: the shortest window that can hold a chirp.
    pub fn m(&self) -> (m: usize)
        ensures
            m == self.template_len(),
    {
        self.band.chirp_samples()
    }

    /// How many places of `n` samples can hold a whole chirp, and so have a score.
    pub fn score_count(&self, n: usize) -> (l: usize)
        requires
            0 < self.template_len(),
        ensures
            l == (if n < self.template_len() {
                0
            } else {
                n - self.template_len() + 1
            }),
    {
        let m: usize = self.m();
        if n < m {
            0
        } else {
            n - m + 1
        }
    }

    /// Indices of distinct local maxima above the threshold, strongest first.
    ///
    /// Peaks within one template length of each other are one event -- a chirp
    /// correlates over its whole width, so the raw score has a broad hump.
    pub fn peaks(&self, sc: &[i32]) -> (out: Vec<usize>)
        ensures
            self.are_peaks(sc@, out@),
    {
        let len: usize = sc.len();
        let mut out: Vec<usize> = Vec::new();
        let ghost mut raw: Seq<usize> = Seq::empty();
        let ghost thr = self.threshold;
        let reach: usize = self.m();
        let ghost m = reach as int;
        let mut i: usize = 0;
        proof {
            lemma_next_hit(sc@, thr, 0);
            assert(raw + events(sc@, thr, m, 0) =~= events(sc@, thr, m, 0));
        }
        while i < len
            invariant
                len == sc@.len(),
                i <= len,
                thr == self.threshold,
                m == reach,
                events(sc@, thr, m, 0) == raw + events(sc@, thr, m, i as int),
                raw.to_multiset() == out@.to_multiset(),
                strongest_first(sc@, out@),
                forall|k: int| 0 <= k < out@.len() ==> #[trigger] out@[k] < i,
            decreases len - i,
        {
            if !score_at_least(sc[i], self.threshold) {
                assert(next_hit(sc@, thr, i as int) == next_hit(sc@, thr, i + 1));
                proof {
                    lemma_next_hit(sc@, thr, i + 1);
                    let lo = next_hit(sc@, thr, i + 1);
                    if lo < len {
                        lemma_event_end(sc@, thr, m, lo, lo + 1);
                    }
                }
                i = i + 1;
            } else {
                let lo: usize = i;
                let mut hi: usize = i;
                let mut j: usize = i + 1;
                while j < len && j - hi <= reach
                    invariant
                        len == sc@.len(),
                        lo <= hi < j <= len,
                        thr == self.threshold,
                        m == reach,
                        event_end(sc@, thr, m, lo as int, lo + 1) == event_end(
                            sc@,
                            thr,
                            m,
                            hi as int,
                            j as int,
                        ),
                    decreases len - j,
                {
                    if score_at_least(sc[j], self.threshold) {
                        hi = j;
                    }
                    j = j + 1;
                }
                let peak: usize = strongest_in(sc, lo, hi);
                proof {
                    lemma_one_strongest(sc@, lo as int, hi as int, peak as int);
                    assert(events(sc@, thr, m, lo as int) == seq![peak] + events(
                        sc@,
                        thr,
                        m,
                        hi + 1,
                    ));
                    assert(raw + (seq![peak] + events(sc@, thr, m, hi + 1)) =~= raw.push(peak)
                        + events(sc@, thr, m, hi + 1));
                    vstd::seq_lib::to_multiset_build(raw, peak);
                    raw = raw.push(peak);
                }
                place(sc, &mut out, peak);
                i = hi + 1;
            }
        }
        assert(raw + Seq::<usize>::empty() =~= raw);
        out
    }

    /// The samples to compare before a preamble at `i` is believed: the run-up
    /// starts at the first number and the chirp ends at the second. Nothing where
    /// there is not enough history, or not enough chirp, to judge.
    ///
    /// Every packet starts with silence, so a genuine chirp always has a quiet
    /// run-up. A false peak found inside a packet's own payload is preceded by
    /// full-volume data tones and fails the comparison. This is what lets the
    /// threshold stay low without turning into a storm of self-detections.
    pub fn lead_in_window(&self, len: usize, i: usize) -> (w: Option<(usize, usize)>)
        ensures
            w == (if i < crate::samples_in(LEAD_GUARD_MS as int) || i + self.template_len() > len {
                None
            } else {
                Some(
                    (
                        (i - crate::samples_in(LEAD_GUARD_MS as int)) as usize,
                        (i + self.template_len()) as usize,
                    ),
                )
            }),
    {
        let g: usize = ms_samples(LEAD_GUARD_MS);
        let m: usize = self.m();
        if i < g || i > len || m > len - i {
            return None;
        }
        Some((i - g, i + m))
    }
}

// --------------------------------------------------------------------------- //
// Which peak is a preamble
// --------------------------------------------------------------------------- //
/// The state of a [`PeakTrial`].
#[verifier::ext_equal]
pub struct PeakTrialView {
    /// The peaks that are still to be judged.
    pub left: Seq<usize>,
    /// How many had no quiet run-up.
    pub rejected: nat,
    /// The first that had one.
    pub found: Option<usize>,
}

/// The trial after its first peak was judged.
pub open spec fn peak_judged(t: PeakTrialView, quiet: bool) -> PeakTrialView {
    if quiet {
        PeakTrialView { left: Seq::empty(), found: Some(t.left[0]), ..t }
    } else {
        PeakTrialView { left: t.left.skip(1), rejected: t.rejected + 1, ..t }
    }
}

/// A search among the peaks of one detector, strongest first, for one with a quiet
/// run-up: that is what separates a real chirp from the packet's own payload tones,
/// which also correlate with it.
///
/// The trial asks for one peak after another; whoever holds the audio judges its
/// run-up.
pub struct PeakTrial {
    peaks: Vec<usize>,
    next: usize,
    found: Option<usize>,
}

impl View for PeakTrial {
    type V = PeakTrialView;

    closed spec fn view(&self) -> PeakTrialView {
        PeakTrialView {
            left: if self.found is Some {
                Seq::empty()
            } else {
                self.peaks@.skip(self.next as int)
            },
            rejected: self.next as nat,
            found: self.found,
        }
    }
}

impl PeakTrial {
    pub closed spec fn wf(self) -> bool {
        self.next <= self.peaks@.len()
    }

    /// Every peak is a place among `n` scores.
    pub closed spec fn within(self, n: int) -> bool {
        &&& forall|k: int| 0 <= k < self.peaks@.len() ==> #[trigger] self.peaks@[k] < n
        &&& self.found matches Some(j) ==> j < n
    }

    /// The peak to judge next, if any is left.
    pub fn want(&self) -> (at: Option<usize>)
        requires
            self.wf(),
        ensures
            at == (if self@.left.len() == 0 {
                None
            } else {
                Some(self@.left[0])
            }),
    {
        if self.found.is_none() && self.next < self.peaks.len() {
            Some(self.peaks[self.next])
        } else {
            None
        }
    }

    /// Say whether the run-up of the peak asked for is quiet.
    pub fn tell(&mut self, quiet: bool)
        requires
            old(self).wf(),
            old(self)@.left.len() > 0,
        ensures
            final(self).wf(),
            final(self)@ == peak_judged(old(self)@, quiet),
            forall|n: int| #[trigger] old(self).within(n) ==> final(self).within(n),
    {
        let count: usize = self.peaks.len();
        assert(self.next < count);
        let ghost before = self@;
        if quiet {
            self.found = Some(self.peaks[self.next]);
        } else {
            self.next = self.next + 1;
        }
        assert(self@ =~= peak_judged(before, quiet));
    }

    /// How many peaks had no quiet run-up.
    pub fn rejected(&self) -> (n: usize)
        ensures
            n == self@.rejected,
    {
        self.next
    }

    /// The peak that had one.
    pub fn found(&self) -> (at: Option<usize>)
        ensures
            at == self@.found,
            forall|n: int| #[trigger] self.within(n) ==> (at matches Some(j) ==> j < n),
    {
        self.found
    }
}

impl PreambleDetector {
    /// Begin to judge the peaks of these scores.
    pub fn begin_peaks(&self, sc: &[i32]) -> (trial: PeakTrial)
        ensures
            trial.wf(),
            trial.within(sc@.len() as int),
            self.are_peaks(sc@, trial@.left),
            trial@.rejected == 0,
            trial@.found is None,
    {
        let peaks = self.peaks(sc);
        assert(peaks@.skip(0) =~= peaks@);
        PeakTrial { peaks, next: 0, found: None }
    }
}

/// The trial when every peak it asks for was judged by `quiet`.
pub open spec fn peak_trial_end(t: PeakTrialView, quiet: spec_fn(usize) -> bool) -> PeakTrialView
    decreases t.left.len(),
{
    if t.left.len() == 0 {
        t
    } else {
        peak_trial_end(peak_judged(t, quiet(t.left[0])), quiet)
    }
}

/// The strongest peak with a quiet run-up is taken, whatever stands behind it, and
/// the stronger ones count as rejected.
pub proof fn the_first_quiet_peak_is_taken(
    t: PeakTrialView,
    quiet: spec_fn(usize) -> bool,
    k: int,
)
    requires
        0 <= k < t.left.len(),
        quiet(t.left[k]),
        forall|j: int| 0 <= j < k ==> !quiet(#[trigger] t.left[j]),
    ensures
        peak_trial_end(t, quiet).found == Some(t.left[k]),
        peak_trial_end(t, quiet).rejected == t.rejected + k,
    decreases k,
{
    reveal_with_fuel(peak_trial_end, 2);
    if k > 0 {
        let next = peak_judged(t, false);
        assert(!quiet(t.left[0]));
        assert forall|j: int| 0 <= j < k - 1 implies !quiet(#[trigger] next.left[j]) by {
            assert(next.left[j] == t.left[j + 1]);
        }
        the_first_quiet_peak_is_taken(next, quiet, k - 1);
    }
}

/// Where no peak has a quiet run-up, none is taken and all count as rejected.
pub proof fn without_a_quiet_run_up_nothing_is_found(
    t: PeakTrialView,
    quiet: spec_fn(usize) -> bool,
)
    requires
        forall|j: int| 0 <= j < t.left.len() ==> !quiet(#[trigger] t.left[j]),
    ensures
        peak_trial_end(t, quiet).found == t.found,
        peak_trial_end(t, quiet).rejected == t.rejected + t.left.len(),
    decreases t.left.len(),
{
    if t.left.len() > 0 {
        let next = peak_judged(t, false);
        assert(!quiet(t.left[0]));
        assert forall|j: int| 0 <= j < next.left.len() implies !quiet(#[trigger] next.left[j]) by {
            assert(next.left[j] == t.left[j + 1]);
        }
        without_a_quiet_run_up_nothing_is_found(next, quiet);
    }
}

/// Put a place that lies behind all the others among them, strongest first.
fn place(sc: &[i32], out: &mut Vec<usize>, peak: usize)
    requires
        peak < sc@.len(),
        strongest_first(sc@, old(out)@),
        forall|k: int| 0 <= k < old(out)@.len() ==> #[trigger] old(out)@[k] < peak,
    ensures
        strongest_first(sc@, final(out)@),
        final(out)@.to_multiset() == old(out)@.to_multiset().insert(peak),
        forall|k: int| 0 <= k < final(out)@.len() ==> #[trigger] final(out)@[k] <= peak,
{
    let ghost before = out@;
    let mut at: usize = 0;
    while at < out.len() && sc[out[at]] >= sc[peak]
        invariant
            at <= out@.len(),
            peak < sc@.len(),
            out@ == before,
            forall|k: int| 0 <= k < before.len() ==> #[trigger] before[k] < peak,
            forall|k: int| 0 <= k < at ==> sc@[(#[trigger] before[k]) as int] >= sc@[peak as int],
        decreases out@.len() - at,
    {
        at = at + 1;
    }
    out.insert(at, peak);
    proof {
        vstd::seq_lib::to_multiset_insert(before, at as int, peak);
        assert forall|k: int| at <= k < before.len() implies sc@[(#[trigger] before[k]) as int]
            < sc@[peak as int] by {
            if k > at {
                assert(sc@[before[at as int] as int] >= sc@[before[k] as int]);
            }
        }
        assert forall|i: int, j: int| 0 <= i < j < out@.len() implies {
            let a = #[trigger] out@[i];
            let b = #[trigger] out@[j];
            sc@[a as int] > sc@[b as int] || (sc@[a as int] == sc@[b as int] && a < b)
        } by {
            let i0 = if i < at {
                i
            } else {
                i - 1
            };
            let j0 = if j < at {
                j
            } else {
                j - 1
            };
            if i != at {
                assert(out@[i] == before[i0]);
            }
            if j != at {
                assert(out@[j] == before[j0]);
            }
        }
    }
}

// --------------------------------------------------------------------------- //
// How scores compare
// --------------------------------------------------------------------------- //
/// Scores compare as numbers do: of two numbers one is above the other, or each is at
/// least the other; the two zeros are equal, every other rank is a score of its own; and
/// what is not a number is neither above nor at least anything.
pub proof fn scores_compare_as_numbers(a: i32, b: i32, c: i32)
    ensures
        is_nan(a) || is_nan(b) ==> !above(a, b) && !at_least(a, b),
        !is_nan(a) && !is_nan(b) ==> (at_least(a, b) <==> !above(b, a)),
        above(a, b) ==> at_least(a, b) && a > b,
        at_least(a, b) && at_least(b, a) ==> a == b || (a == 0 && b == -1) || (a == -1 && b == 0),
        at_least(a, b) && at_least(b, c) ==> at_least(a, c),
        a == -1 && b == 0 ==> at_least(a, b) && at_least(b, a),
        !is_nan(a) <==> -0x7F80_0001 <= a <= 0x7F80_0000,
{
}

/// The larger of two scores is one of them and no lower than either; what is not a number
/// gives way to a number.
pub proof fn the_higher_score_is_no_lower(a: i32, b: i32)
    ensures
        higher(a, b) == a || higher(a, b) == b,
        !above(a, higher(a, b)) && !above(b, higher(a, b)),
        !is_nan(a) || !is_nan(b) ==> !is_nan(higher(a, b)),
{
}

/// More than half of the scores are no higher than the middle one, and no more than half
/// are lower.
pub proof fn half_the_scores_lie_below_the_middle(sc: Seq<i32>)
    requires
        sc.len() > 0,
    ensures
        2 * count_up_to(sc, middle(sc) as int) > sc.len(),
        2 * count_up_to(sc, middle(sc) - 1) <= sc.len(),
        sc.contains(middle(sc)),
{
    let leq = |a: i32, b: i32| a <= b;
    sc.lemma_sort_by_ensures(leq);
    let s = sc.sort_by(leq);
    broadcast use vstd::seq_lib::group_to_multiset_ensures;

    assert(s.to_multiset().len() == s.len() && sc.to_multiset().len() == sc.len());
    assert(s.to_multiset() == sc.to_multiset());
    let n = sc.len() as int / 2;
    let v = s[n];
    lemma_count_is_of_the_multiset(sc, v as int);
    lemma_count_is_of_the_multiset(s, v as int);
    lemma_count_is_of_the_multiset(sc, v - 1);
    lemma_count_is_of_the_multiset(s, v - 1);
    assert forall|i: int, j: int| 0 <= i < j < s.len() implies #[trigger] s[i]
        <= #[trigger] s[j] by {
        assert(leq(s[i], s[j]));
    }
    let k = lemma_split(s, v as int, n);
    lemma_count_in_order(s, v as int, k);
    let l = lemma_split(s, v - 1, n);
    lemma_count_in_order(s, v - 1, l);
    assert(s.contains(v));
    assert(s.to_multiset().count(v) > 0);
    assert(sc.to_multiset().count(v) > 0);
}

/// Every peak stands for its neighbourhood: some place no farther behind it than the
/// peak itself reaches the threshold and is no stronger, and no place within a template
/// length of the peak that reaches the threshold is stronger than it.
proof fn lemma_events_are_tops(sc: Seq<i32>, threshold: i32, m: int, i: int, k: int, j: int)
    requires
        0 <= i <= sc.len() <= usize::MAX,
        0 <= m,
        0 <= k < events(sc, threshold, m, i).len(),
    ensures
        ({
            let at = events(sc, threshold, m, i)[k] as int;
            &&& exists|l: int|
                i <= l <= at && at_least(#[trigger] sc[l], threshold) && sc[l] <= sc[at]
            &&& i <= j < sc.len() && at_least(sc[j], threshold) && -m <= j - at <= m ==> sc[j]
                <= sc[at]
        }),
    decreases sc.len() - i,
{
    let e = events(sc, threshold, m, i);
    let lo = next_hit(sc, threshold, i);
    let hi = event_end(sc, threshold, m, lo, lo + 1);
    lemma_next_hit(sc, threshold, i);
    if lo < sc.len() {
        lemma_event_end(sc, threshold, m, lo, lo + 1);
        lemma_strongest_of(sc, lo, hi);
        let rest = events(sc, threshold, m, hi + 1);
        lemma_next_hit(sc, threshold, hi + 1);
        let far = next_hit(sc, threshold, hi + 1);
        assert(far >= sc.len() || far - hi > m);
        let top = strongest_of(sc, lo, hi);
        assert(e[0] == top);
        if k == 0 {
            assert(at_least(sc[lo], threshold) && sc[lo] <= sc[top]);
        } else {
            assert(e[k] == rest[k - 1]);
            lemma_events(sc, threshold, m, hi + 1);
            lemma_events_are_tops(sc, threshold, m, hi + 1, k - 1, j);
        }
    }
}

/// Every peak is the top of its neighbourhood: no place within a template length of it
/// that reaches the threshold is stronger; and it stands at, or behind, a place that
/// reaches the threshold and is no stronger than it.
pub proof fn peaks_are_the_tops_of_their_events(
    sc: Seq<i32>,
    threshold: i32,
    m: int,
    peaks: Seq<usize>,
    k: int,
    j: int,
)
    requires
        sc.len() <= usize::MAX,
        0 <= m,
        peaks.to_multiset() == events(sc, threshold, m, 0).to_multiset(),
        0 <= k < peaks.len(),
    ensures
        exists|l: int|
            0 <= l <= peaks[k] && at_least(#[trigger] sc[l], threshold) && sc[l]
                <= sc[peaks[k] as int],
        0 <= j < sc.len() && at_least(sc[j], threshold) && -m <= j - peaks[k] <= m ==> sc[j]
            <= sc[peaks[k] as int],
        peaks[k] < sc.len(),
{
    broadcast use vstd::seq_lib::group_to_multiset_ensures;

    let e = events(sc, threshold, m, 0);
    lemma_events(sc, threshold, m, 0);
    assert(peaks.contains(peaks[k]));
    assert(e.to_multiset().count(peaks[k]) > 0);
    let a = choose|a: int| 0 <= a < e.len() && e[a] == peaks[k];
    lemma_events_are_tops(sc, threshold, m, 0, a, j);
}

/// The last of equals is the strongest: one place more is the strongest exactly where none
/// before it is stronger, and else the strongest of those stays it.
pub proof fn the_last_of_equal_scores_is_the_strongest(sc: Seq<i32>, lo: int, hi: int)
    requires
        lo <= hi,
    ensures
        ({
            let (a, b) = (strongest_of(sc, lo, hi), strongest_of(sc, lo, hi + 1));
            &&& lo <= a <= hi
            &&& b == hi + 1 <==> sc[hi + 1] >= sc[a]
            &&& b != hi + 1 ==> b == a
            &&& strongest_of(sc, lo, lo) == lo
        }),
    decreases hi - lo,
{
    lemma_strongest_of(sc, lo, hi);
}

/// The number that a finite score is, in units of 2^-150.
pub open spec fn score_value(rank: i32) -> int {
    significand(rank) * power2::pow2(exponent(rank) as nat)
}

/// Ranks count up through the scores: from nothing, each next one is above the last by
/// one unit of its last place; and a negative score is as large as the positive one it
/// mirrors.
pub proof fn ranks_count_through_the_scores(rank: i32)
    requires
        0 <= rank < 0x7F7F_FFFF,
    ensures
        score_value((rank + 1) as i32) == score_value(rank) + power2::pow2(exponent(rank) as nat),
        rank == 0 ==> score_value(rank) == 0,
        score_value((-1 - rank) as i32) == score_value(rank),
        1 <= exponent(rank) <= 254,
{
    let next = (rank + 1) as i32;
    let e = rank as int / 0x80_0000;
    let unit = power2::pow2(exponent(rank) as nat) as int;
    let s = significand(rank);
    if (rank + 1) / 0x80_0000 == e || e == 0 {
        assert(exponent(next) == exponent(rank));
        assert(significand(next) == s + 1);
        assert((s + 1) * unit == s * unit + unit) by (nonlinear_arith);
    } else {
        assert(s == 0xFF_FFFF);
        assert(significand(next) == 0x80_0000);
        assert(exponent(next) == exponent(rank) + 1);
        power2::lemma_pow2_unfold(exponent(next) as nat);
        let double = power2::pow2(exponent(next) as nat) as int;
        assert(0x80_0000 * double == 0xFF_FFFF * unit + unit) by (nonlinear_arith)
            requires
                double == 2 * unit,
        ;
    }
    if rank == 0 {
        assert(0 * unit == 0);
    }
    assert(magnitude_bits((-1 - rank) as i32) == rank);
}

/// Peaks come strongest first: the first of them is no weaker than any place that reaches
/// the threshold, and of two that tie the earlier one comes first.
pub proof fn peaks_come_strongest_first(
    det: PreambleDetector,
    sc: Seq<i32>,
    peaks: Seq<usize>,
    i: int,
    j: int,
)
    requires
        sc.len() <= usize::MAX,
        0 <= det.template_len(),
        det.are_peaks(sc, peaks),
    ensures
        0 <= i < j < peaks.len() ==> sc[peaks[i] as int] >= sc[peaks[j] as int],
        0 <= i < j < peaks.len() && sc[peaks[i] as int] == sc[peaks[j] as int] ==> peaks[i]
            < peaks[j],
        0 <= j < sc.len() && at_least(sc[j], det.threshold) ==> peaks.len() > 0 && sc[j]
            <= sc[peaks[0] as int],
        (forall|k: int| 0 <= k < sc.len() ==> !at_least(#[trigger] sc[k], det.threshold))
            ==> peaks.len() == 0,
{
    let m = det.template_len();
    peaks_are_the_distinct_events(sc, det.threshold, m, peaks, j);
    if 0 <= j < sc.len() && at_least(sc[j], det.threshold) {
        let k = choose|k: int|
            0 <= k < peaks.len() && sc[(#[trigger] peaks[k]) as int] >= sc[j];
        if k > 0 {
            assert(sc[peaks[0] as int] >= sc[peaks[k] as int]);
        }
    }
    if peaks.len() > 0 {
        peaks_are_the_tops_of_their_events(sc, det.threshold, m, peaks, 0, 0);
    }
}

/// A score is shown by its sign and its size; what is not a number, and what has no end,
/// by name.
pub proof fn scores_are_shown_by_their_size(rank: i32, places: nat)
    requires
        0 <= rank,
    ensures
        is_nan(rank) ==> score_digits(rank, places) == "NaN"@,
        rank == 0x7F80_0000 ==> score_digits(rank, places) == "inf"@,
        rank < 0x7F80_0000 ==> score_digits((-1 - rank) as i32, places) == "-"@ + score_digits(
            rank,
            places,
        ),
        rank < 0x7F80_0000 && exponent(rank) <= 150 ==> score_digits(rank, places)
            == text::fixed_point(
            text::pow10(places) * significand(rank),
            power2::pow2((150 - exponent(rank)) as nat),
            places,
        ),
        score_text(rank) == score_digits(rank, 2),
{
    let e = Seq::<char>::empty();
    let d = score_digits(rank, places);
    assert(magnitude_bits((-1 - rank) as i32) == rank);
    assert(e + "inf"@ =~= "inf"@);
    if rank < 0x7F80_0000 {
        if exponent(rank) <= 150 {
            let t = text::fixed_point(
                text::pow10(places) * significand(rank),
                power2::pow2((150 - exponent(rank)) as nat),
                places,
            );
            assert(e + t =~= t);
        } else {
            let t = text::decimal(
                (significand(rank) * power2::pow2((exponent(rank) - 150) as nat)) as nat,
            );
            let z = if places == 2 {
                ".00"@
            } else {
                ".000"@
            };
            assert("-"@ + (e + t + z) =~= "-"@ + t + z);
        }
    }
}

/// Without scores there is no noise; of one, it is the noise.
pub proof fn the_middle_of_little(x: i32)
    ensures
        middle(Seq::empty()) == 0,
        middle(seq![x]) == x,
{
    half_the_scores_lie_below_the_middle(seq![x]);
    let m = middle(seq![x]);
    let k = choose|k: int| 0 <= k < seq![x].len() && seq![x][k] == m;
    assert(seq![x][k] == x);
}

/// A score too large for a fraction is shown as the whole number it is.
pub proof fn large_scores_are_whole(rank: i32)
    requires
        0 <= rank < 0x7F80_0000,
        exponent(rank) > 150,
    ensures
        score_digits(rank, 2) == text::decimal(
            (significand(rank) * power2::pow2((exponent(rank) - 150) as nat)) as nat,
        ) + ".00"@,
        score_digits(rank, 3) == text::decimal(
            (significand(rank) * power2::pow2((exponent(rank) - 150) as nat)) as nat,
        ) + ".000"@,
{
    let t = text::decimal(
        (significand(rank) * power2::pow2((exponent(rank) - 150) as nat)) as nat,
    );
    assert(Seq::<char>::empty() + t =~= t);
}

} // verus!

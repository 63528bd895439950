//! The numbers that appear in log lines, written out character by character.
//!
//! A line is built by appending to a `String`, so the text that a function
//! reports is the concatenation of its pieces, in order.
use vstd::arithmetic::power2;
use vstd::prelude::*;
use vstd::utf8;

verus! {

/// The character of a decimal digit.
pub open spec fn digit(d: int) -> char {
    (48 + d) as char
}

/// The character of a hexadecimal digit, with capital letters.
pub open spec fn upper_digit(d: int) -> char {
    if d < 10 {
        (48 + d) as char
    } else {
        (55 + d) as char
    }
}

/// The character of a hexadecimal digit, with small letters.
pub open spec fn lower_digit(d: int) -> char {
    if d < 10 {
        (48 + d) as char
    } else {
        (87 + d) as char
    }
}

/// `n` in decimal, with no leading zero.
pub open spec fn decimal(n: nat) -> Seq<char>
    decreases n,
{
    if n < 10 {
        seq![digit(n as int)]
    } else {
        decimal(n / 10).push(digit((n % 10) as int))
    }
}

/// The last `width` decimal digits of `n`.
pub open spec fn padded(n: nat, width: nat) -> Seq<char>
    decreases width,
{
    if width == 0 {
        Seq::empty()
    } else {
        padded(n / 10, (width - 1) as nat).push(digit((n % 10) as int))
    }
}

/// A 16-bit id as four hexadecimal digits.
pub open spec fn hex4(n: u16) -> Seq<char> {
    seq![
        upper_digit(n as int / 4096),
        upper_digit(n as int / 256 % 16),
        upper_digit(n as int / 16 % 16),
        upper_digit(n as int % 16),
    ]
}

/// A type byte as `0x` and two hexadecimal digits.
pub open spec fn hex_byte(n: u8) -> Seq<char> {
    "0x"@ + seq![lower_digit(n as int / 16), lower_digit(n as int % 16)]
}

pub open spec fn pow10(k: nat) -> nat
    decreases k,
{
    if k == 0 {
        1
    } else {
        10 * pow10((k - 1) as nat)
    }
}

/// `n / unit` to the nearest whole number; a tie goes to the even one.
pub open spec fn rounded(n: nat, unit: nat) -> nat {
    let q = n / unit;
    let r = n % unit;
    if 2 * r > unit || (2 * r == unit && q % 2 == 1) {
        q + 1
    } else {
        q
    }
}

/// `n / (unit * 10^places)` with `places` digits behind the point, rounded to the
/// nearest; a tie goes to the even last digit, and a negative value keeps its
/// sign even where it rounds to zero.
pub open spec fn fixed_point(n: int, unit: nat, places: nat) -> Seq<char> {
    let q = rounded(
        (if n < 0 {
            -n
        } else {
            n
        }) as nat,
        unit,
    );
    let whole = (if n < 0 {
        "-"@
    } else {
        Seq::empty()
    }) + decimal(q / pow10(places));
    if places == 0 {
        whole
    } else {
        whole + "."@ + padded(q % pow10(places), places)
    }
}

/// A fraction whose numerator is `a` and whose denominator is `unit` times `d`, both
/// doubled until the fraction's whole part has 53 bits.
pub open spec fn widened(a: nat, unit: nat, d: nat) -> (nat, nat)
    decreases 0x20_0000_0000_0000 * d - a,
{
    if 0 < a < 0x10_0000_0000_0000 * d {
        widened(2 * a, 2 * unit, d)
    } else {
        (a, unit)
    }
}

/// The double nearest to `n / d`, below 2^53, as a fraction: the whole number of its
/// 53 significant bits, and the power of two to divide it by.
pub open spec fn nearest_double(n: nat, d: nat) -> (nat, nat) {
    let (a, unit) = widened(n, 1, d);
    (rounded(a, d), unit)
}

/// `n / d` as a double shows it with `places` digits behind the point: the digits
/// are those of the double that is nearest to it.
pub open spec fn double_text(n: int, d: nat, places: nat) -> Seq<char> {
    let (m, unit) = nearest_double(
        (if n < 0 {
            -n
        } else {
            n
        }) as nat,
        d,
    );
    fixed_point(
        if n < 0 {
            -(m * pow10(places))
        } else {
            (m * pow10(places)) as int
        },
        unit,
        places,
    )
}

/// The power of two between neighbouring doubles at `n`, from `unit` on.
pub open spec fn double_unit(n: nat, unit: nat) -> nat
    decreases n - unit,
{
    if 0 < unit && 0x20_0000_0000_0000 * unit <= n {
        double_unit(n, 2 * unit)
    } else {
        unit
    }
}

/// The double nearest to a whole number.
pub open spec fn whole_double(n: nat) -> nat {
    rounded(n, double_unit(n, 1)) * double_unit(n, 1)
}

proof fn lemma_double_unit(n: nat, k: nat) -> (j: nat)
    ensures
        k <= j,
        double_unit(n, power2::pow2(k)) == power2::pow2(j),
        n < power2::pow2(53 + j),
        j == k || power2::pow2(52 + j) <= n,
    decreases n - power2::pow2(k),
{
    power2::lemma_pow2_pos(k);
    power2::lemma2_to64_rest();
    power2::lemma_pow2_adds(53, k);
    if power2::pow2(53 + k) <= n {
        power2::lemma_pow2_unfold(k + 1);
        lemma_double_unit(n, k + 1)
    } else {
        k
    }
}

proof fn lemma_rounds_below(n: nat, unit: nat, c: nat)
    requires
        0 < unit,
        n <= c * unit,
    ensures
        rounded(n, unit) <= c,
{
    let q = n / unit;
    let r = n % unit;
    assert(n == q * unit + r && 0 <= r < unit) by (nonlinear_arith)
        requires
            0 < unit,
            q == n / unit,
            r == n % unit,
    ;
    assert(q <= c) by (nonlinear_arith)
        requires
            n == q * unit + r,
            0 <= r < unit,
            n <= c * unit,
            0 < unit,
    ;
    if q == c {
        assert(r == 0);
    }
}

/// A power of two above all sums of doubles.
pub open spec fn sums_end() -> nat {
    power2::pow2(122)
}

/// A sum that has come near the end has only coarse steps left.
pub open spec fn settled(s: nat) -> bool {
    s <= sums_end() && (s >= power2::pow2(121) ==> s % power2::pow2(69) == 0)
}

/// However many small numbers are added up, each time to the nearest double, the sum
/// stays below a fixed end: there the doubles are so far apart that the next number
/// is lost in the rounding.
pub proof fn lemma_sums_end(s: nat, x: nat)
    requires
        settled(s),
        x <= power2::pow2(68),
    ensures
        settled(whole_double(s + x)),
{
    let v = s + x;
    power2::lemma2_to64();
    let j = lemma_double_unit(v, 0);
    let u = power2::pow2(j);
    power2::lemma_pow2_pos(j);
    power2::lemma_pow2_pos(69);
    power2::lemma_pow2_adds(52, 69);
    power2::lemma_pow2_adds(53, 69);
    power2::lemma_pow2_adds(52, 70);
    power2::lemma_pow2_unfold(122);
    power2::lemma_pow2_unfold(70);
    power2::lemma_pow2_unfold(69);
    power2::lemma_pow2_strictly_increases(68, 121);
    let c = rounded(v, u);
    if v < power2::pow2(121) {
        if j >= 69 {
            if 121 < 52 + j {
                power2::lemma_pow2_strictly_increases(121, 52 + j);
            }
        }
        assert(j <= 68);
        power2::lemma_pow2_adds((121 - j) as nat, j);
        lemma_rounds_below(v, u, power2::pow2((121 - j) as nat));
        assert(c * u <= power2::pow2(121)) by (nonlinear_arith)
            requires
                c <= power2::pow2((121 - j) as nat),
                power2::pow2((121 - j) as nat) * u == power2::pow2(121),
        ;
        vstd::arithmetic::div_mod::lemma_mod_multiples_basic(
            power2::pow2(52) as int,
            power2::pow2(69) as int,
        );
    } else if v < power2::pow2(122) {
        if j < 69 {
            if 53 + j < 121 {
                power2::lemma_pow2_strictly_increases(53 + j, 121);
            }
        }
        if j > 69 {
            if 122 < 52 + j {
                power2::lemma_pow2_strictly_increases(122, 52 + j);
            }
        }
        assert(j == 69);
        lemma_rounds_below(v, u, power2::pow2(53));
        assert(c * u <= power2::pow2(122)) by (nonlinear_arith)
            requires
                c <= power2::pow2(53),
                power2::pow2(53) * u == power2::pow2(122),
        ;
        vstd::arithmetic::div_mod::lemma_mod_multiples_basic(c as int, u as int);
    } else {
        let unit = power2::pow2(69);
        if s < power2::pow2(122) {
            let q = s / unit;
            assert(s == q * unit) by (nonlinear_arith)
                requires
                    q == s / unit,
                    s % unit == 0,
                    0 < unit,
            ;
            assert(q < power2::pow2(53)) by (nonlinear_arith)
                requires
                    s == q * unit,
                    s < power2::pow2(53) * unit,
                    0 < unit,
            ;
            assert(s + unit <= power2::pow2(53) * unit) by (nonlinear_arith)
                requires
                    s == q * unit,
                    q + 1 <= power2::pow2(53),
                    0 < unit,
            ;
            assert(false);
        }
        assert(s == power2::pow2(122));
        power2::lemma_pow2_unfold(123);
        if j < 70 {
            if 53 + j < 122 {
                power2::lemma_pow2_strictly_increases(53 + j, 122);
            }
        }
        if j > 70 {
            if 123 < 52 + j {
                power2::lemma_pow2_strictly_increases(123, 52 + j);
            }
        }
        assert(j == 70);
        assert(v == power2::pow2(52) * u + x);
        vstd::arithmetic::div_mod::lemma_fundamental_div_mod_converse(
            v as int,
            u as int,
            power2::pow2(52) as int,
            x as int,
        );
        assert(c == power2::pow2(52));
        vstd::arithmetic::div_mod::lemma_mod_multiples_basic(
            power2::pow2(53) as int,
            power2::pow2(69) as int,
        );
    }
}

/// The double nearest to a whole number of either sign.
pub open spec fn signed_double(n: int) -> int {
    if n < 0 {
        -(whole_double((-n) as nat) as int)
    } else {
        whole_double(n as nat) as int
    }
}

/// `s` and as many spaces as it takes to fill `width` columns.
pub open spec fn left_aligned(s: Seq<char>, width: nat) -> Seq<char> {
    if s.len() < width {
        s + Seq::new((width - s.len()) as nat, |i: int| ' ')
    } else {
        s
    }
}

/// `n` spaces.
pub open spec fn spaces(n: nat) -> Seq<char> {
    Seq::new(n, |i: int| ' ')
}

/// `s` behind as many spaces as it takes to fill `width` columns.
pub open spec fn right_aligned(s: Seq<char>, width: nat) -> Seq<char> {
    if s.len() < width {
        spaces((width - s.len()) as nat) + s
    } else {
        s
    }
}

/// A bar of `n` columns.
pub open spec fn bar(n: nat) -> Seq<char> {
    Seq::new(n, |i: int| '#')
}

fn upper_digit_str(d: u8) -> (s: &'static str)
    requires
        d < 16,
    ensures
        s@ == seq![upper_digit(d as int)],
{
    proof {
        reveal_strlit("0");
        reveal_strlit("1");
        reveal_strlit("2");
        reveal_strlit("3");
        reveal_strlit("4");
        reveal_strlit("5");
        reveal_strlit("6");
        reveal_strlit("7");
        reveal_strlit("8");
        reveal_strlit("9");
        reveal_strlit("A");
        reveal_strlit("B");
        reveal_strlit("C");
        reveal_strlit("D");
        reveal_strlit("E");
        reveal_strlit("F");
    }
    match d {
        0 => "0",
        1 => "1",
        2 => "2",
        3 => "3",
        4 => "4",
        5 => "5",
        6 => "6",
        7 => "7",
        8 => "8",
        9 => "9",
        10 => "A",
        11 => "B",
        12 => "C",
        13 => "D",
        14 => "E",
        _ => "F",
    }
}

fn lower_digit_str(d: u8) -> (s: &'static str)
    requires
        d < 16,
    ensures
        s@ == seq![lower_digit(d as int)],
{
    proof {
        reveal_strlit("a");
        reveal_strlit("b");
        reveal_strlit("c");
        reveal_strlit("d");
        reveal_strlit("e");
        reveal_strlit("f");
    }
    match d {
        10 => "a",
        11 => "b",
        12 => "c",
        13 => "d",
        14 => "e",
        15 => "f",
        _ => upper_digit_str(d),
    }
}

/// Append `n` in decimal.
pub fn push_decimal(s: &mut String, n: u128)
    ensures
        final(s)@ == old(s)@ + decimal(n as nat),
    decreases n,
{
    if n >= 10 {
        push_decimal(s, n / 10);
    }
    let ghost before = s@;
    let d: u8 = (n % 10) as u8;
    s.append(upper_digit_str(d));
    assert(before + seq![digit(d as int)] =~= before.push(digit(d as int)));
    proof {
        if n >= 10 {
            assert(old(s)@ + decimal((n / 10) as nat).push(digit(d as int)) =~= (old(s)@ + decimal(
                (n / 10) as nat,
            )).push(digit(d as int)));
        }
    }
}

/// Append the last `width` decimal digits of `n`.
fn push_padded(s: &mut String, n: u128, width: u8)
    ensures
        final(s)@ == old(s)@ + padded(n as nat, width as nat),
    decreases width,
{
    if width > 0 {
        push_padded(s, n / 10, width - 1);
        let ghost before = s@;
        let d: u8 = (n % 10) as u8;
        s.append(upper_digit_str(d));
        assert(before + seq![digit(d as int)] =~= before.push(digit(d as int)));
        assert(old(s)@ + padded((n / 10) as nat, (width - 1) as nat).push(digit(d as int)) =~= (old(
            s,
        )@ + padded((n / 10) as nat, (width - 1) as nat)).push(digit(d as int)));
    } else {
        assert(old(s)@ + Seq::<char>::empty() =~= old(s)@);
    }
}

/// Append a device or message id.
pub fn push_hex4(s: &mut String, n: u16)
    ensures
        final(s)@ == old(s)@ + hex4(n),
{
    s.append(upper_digit_str((n / 4096) as u8));
    s.append(upper_digit_str((n / 256 % 16) as u8));
    s.append(upper_digit_str((n / 16 % 16) as u8));
    s.append(upper_digit_str((n % 16) as u8));
    assert(s@ =~= old(s)@ + hex4(n));
}

/// Append a type byte.
pub fn push_hex_byte(s: &mut String, n: u8)
    ensures
        final(s)@ == old(s)@ + hex_byte(n),
{
    s.append("0x");
    s.append(lower_digit_str(n / 16));
    s.append(lower_digit_str(n % 16));
    assert(s@ =~= old(s)@ + hex_byte(n));
}

/// `n / unit` to the nearest whole number; a tie goes to the even one.
pub fn round_half_even(n: u128, unit: u128) -> (q: u128)
    requires
        0 < unit,
        n < u128::MAX || 1 < unit,
    ensures
        q == rounded(n as nat, unit as nat),
        q <= n + 1,
{
    let q: u128 = n / unit;
    let r: u128 = n % unit;
    assert(q <= n) by (nonlinear_arith)
        requires
            0 < unit,
            q == n / unit,
    ;
    assert(1 < unit ==> 2 * q <= n) by (nonlinear_arith)
        requires
            0 < unit,
            q == n / unit,
    ;
    if r > unit - r || (r == unit - r && q % 2 == 1) {
        q + 1
    } else {
        q
    }
}

/// Append `n / (unit * 10^places)` with `places` digits behind the point.
pub fn push_fixed(s: &mut String, n: i128, unit: u128, places: u8)
    requires
        0 < unit,
        i128::MIN < n,
        places <= 3,
    ensures
        final(s)@ == old(s)@ + fixed_point(n as int, unit as nat, places as nat),
{
    reveal_with_fuel(pow10, 4);
    let size: u128 = if n < 0 {
        (-n) as u128
    } else {
        n as u128
    };
    let q: u128 = round_half_even(size, unit);
    let scale: u128 = match places {
        0 => 1,
        1 => 10,
        2 => 100,
        _ => 1000,
    };
    if n < 0 {
        s.append("-");
    }
    push_decimal(s, q / scale);
    if places > 0 {
        s.append(".");
        push_padded(s, q % scale, places);
    }
    assert(s@ =~= old(s)@ + fixed_point(n as int, unit as nat, places as nat));
}

/// The double nearest to `n / d`, as a fraction.
pub fn to_double(n: u128, d: u32) -> (r: (u64, u128))
    requires
        0 < d,
        n < 0x10_0000_0000_0000 * d,
    ensures
        (r.0 as nat, r.1 as nat) == nearest_double(n as nat, d as nat),
        r.0 <= 0x20_0000_0000_0000,
        0 < r.1,
        r.0 * d <= n * r.1 + d,
{
    let enough: u128 = 0x10_0000_0000_0000 * d as u128;
    let mut a: u128 = n;
    let mut unit: u128 = 1;
    while 0 < a && a < enough
        invariant
            0 < d,
            enough == 0x10_0000_0000_0000 * d,
            a < 2 * enough,
            a == n * unit,
            0 < unit,
            widened(n as nat, 1, d as nat) == widened(a as nat, unit as nat, d as nat),
        decreases 2 * enough - a,
    {
        assert(unit <= a) by (nonlinear_arith)
            requires
                0 < a,
                a == n * unit,
                0 < unit,
        ;
        assert(2 * a == n * (2 * unit)) by (nonlinear_arith)
            requires
                a == n * unit,
        ;
        a = 2 * a;
        unit = 2 * unit;
    }
    let m: u128 = round_half_even(a, d as u128);
    assert(a / d as u128 <= 0x1F_FFFF_FFFF_FFFF && (a / d as u128) * d <= a) by (nonlinear_arith)
        requires
            0 < d,
            a < 0x20_0000_0000_0000 * d,
    ;
    assert(m * d <= (a / d as u128 + 1) * d) by (nonlinear_arith)
        requires
            m <= a / d as u128 + 1,
            0 < d,
    ;
    assert((a / d as u128 + 1) * d == (a / d as u128) * d + d) by (nonlinear_arith);
    (m as u64, unit)
}

/// Append `n / d` as a double shows it with `places` digits behind the point.
pub fn push_double(s: &mut String, n: i128, d: u32, places: u8)
    requires
        0 < d,
        -0x10_0000_0000_0000 * d < n < 0x10_0000_0000_0000 * d,
        places <= 3,
    ensures
        final(s)@ == old(s)@ + double_text(n as int, d as nat, places as nat),
{
    reveal_with_fuel(pow10, 4);
    let size: u128 = if n < 0 {
        (-n) as u128
    } else {
        n as u128
    };
    let (m, unit) = to_double(size, d);
    let scale: i128 = match places {
        0 => 1,
        1 => 10,
        2 => 100,
        _ => 1000,
    };
    let scaled: i128 = m as i128 * scale;
    assert(scaled == m * pow10(places as nat));
    push_fixed(
        s,
        if n < 0 {
            -scaled
        } else {
            scaled
        },
        unit,
        places,
    );
}

/// The double nearest to a whole number.
pub fn to_whole_double(n: u128) -> (r: u128)
    requires
        n < 0x1000_0000_0000_0000_0000_0000_0000_0000,
    ensures
        r == whole_double(n as nat),
        r <= 2 * n,
{
    let mut unit: u128 = 1;
    while 0x20_0000_0000_0000 * unit <= n
        invariant
            n < 0x1000_0000_0000_0000_0000_0000_0000_0000,
            0 < unit,
            unit <= n || unit == 1,
            0x10_0000_0000_0000 * unit <= n || unit == 1,
            double_unit(n as nat, 1) == double_unit(n as nat, unit as nat),
        decreases n - unit,
    {
        unit = 2 * unit;
    }
    let q: u128 = round_half_even(n, unit);
    assert(n as nat / unit as nat * unit <= n) by (nonlinear_arith)
        requires
            0 < unit,
    ;
    assert(q * unit <= n + unit) by (nonlinear_arith)
        requires
            q <= n as nat / unit as nat + 1,
            n as nat / unit as nat * unit <= n,
            0 < unit,
    ;
    q * unit
}

/// The double nearest to a whole number of either sign.
pub fn to_signed_double(n: i128) -> (r: i128)
    requires
        -0x1000_0000_0000_0000_0000_0000_0000_0000 < n < 0x1000_0000_0000_0000_0000_0000_0000_0000,
    ensures
        r == signed_double(n as int),
        0 <= n ==> 0 <= r <= 2 * n,
        n <= 0 ==> 2 * n <= r <= 0,
{
    if n < 0 {
        -(to_whole_double((-n) as u128) as i128)
    } else {
        to_whole_double(n as u128) as i128
    }
}

/// Append `name`, filled up to `width` columns.
pub fn push_left_aligned(s: &mut String, name: &str, width: usize)
    ensures
        final(s)@ == old(s)@ + left_aligned(name@, width as nat),
{
    s.append(name);
    let mut column: usize = name.unicode_len();
    let ghost len = name@.len();
    while column < width
        invariant
            len == name@.len(),
            len <= column,
            column <= width || column == len,
            s@ =~= old(s)@ + name@ + Seq::new((column - len) as nat, |i: int| ' '),
        decreases width - column,
    {
        proof {
            reveal_strlit(" ");
        }
        s.append(" ");
        column = column + 1;
    }
    assert(s@ =~= old(s)@ + left_aligned(name@, width as nat));
}

/// Append `item` behind as many spaces as it takes to fill `width` columns.
pub fn push_right_aligned(s: &mut String, item: &str, width: usize)
    ensures
        final(s)@ == old(s)@ + right_aligned(item@, width as nat),
{
    let len: usize = item.unicode_len();
    let gap: usize = if len < width {
        width - len
    } else {
        0
    };
    let mut i: usize = 0;
    while i < gap
        invariant
            i <= gap,
            s@ =~= old(s)@ + spaces(i as nat),
        decreases gap - i,
    {
        proof {
            reveal_strlit(" ");
        }
        s.append(" ");
        i = i + 1;
    }
    s.append(item);
    assert(s@ =~= old(s)@ + right_aligned(item@, width as nat));
}

/// Append a bar of `n` columns.
pub fn push_bar(s: &mut String, n: usize)
    ensures
        final(s)@ == old(s)@ + bar(n as nat),
{
    let mut i: usize = 0;
    while i < n
        invariant
            i <= n,
            s@ =~= old(s)@ + bar(i as nat),
        decreases n - i,
    {
        proof {
            reveal_strlit("#");
        }
        s.append("#");
        i = i + 1;
    }
    assert(s@ =~= old(s)@ + bar(n as nat));
}

// --------------------------------------------------------------------------- //
// What the digits say
// --------------------------------------------------------------------------- //
/// Rounding goes to the nearest whole number, and from halfway to the even one.
pub proof fn rounding_goes_to_the_nearest(n: nat, unit: nat)
    requires
        0 < unit,
    ensures
        -(unit as int) <= 2 * (rounded(n, unit) * unit - n) <= unit,
        2 * (rounded(n, unit) * unit - n) == unit || 2 * (n - rounded(n, unit) * unit) == unit
            ==> rounded(n, unit) % 2 == 0,
{
    let q = n / unit;
    vstd::arithmetic::div_mod::lemma_fundamental_div_mod(n as int, unit as int);
    assert(q * unit == unit * q) by (nonlinear_arith);
    assert((q + 1) * unit == unit * q + unit) by (nonlinear_arith);
}

/// The number that a run of digits stands for, in this base.
pub open spec fn value_of(s: Seq<char>, base: nat) -> int
    decreases s.len(),
{
    if s.len() == 0 {
        0
    } else {
        let c = s.last() as int;
        let d = if c <= 57 {
            c - 48
        } else if c <= 70 {
            c - 55
        } else {
            c - 87
        };
        value_of(s.drop_last(), base) * base + d
    }
}

/// Every character is one of the ten digits.
pub open spec fn all_digits(s: Seq<char>) -> bool {
    forall|i: int| 0 <= i < s.len() ==> 48 <= #[trigger] s[i] as int <= 57
}

/// A number in decimal is made of digits that stand for it, and does not start with a
/// zero unless it is zero.
pub proof fn decimals_say_their_number(n: nat)
    ensures
        value_of(decimal(n), 10) == n,
        all_digits(decimal(n)),
        decimal(n).len() >= 1,
        n > 0 ==> decimal(n)[0] != '0',
    decreases n,
{
    let s = decimal(n);
    if n < 10 {
        assert(s.drop_last() =~= Seq::<char>::empty());
        assert(value_of(s.drop_last(), 10) == 0);
    } else {
        decimals_say_their_number(n / 10);
        assert(s.drop_last() =~= decimal(n / 10));
    }
}

/// So many digits stand for what the number leaves over a power of ten.
pub proof fn padded_digits_say_the_rest(n: nat, width: nat)
    ensures
        padded(n, width).len() == width,
        all_digits(padded(n, width)),
        0 < pow10(width),
        value_of(padded(n, width), 10) == n % pow10(width),
    decreases width,
{
    let s = padded(n, width);
    if width == 0 {
    } else {
        let w = (width - 1) as nat;
        padded_digits_say_the_rest(n / 10, w);
        assert(s.drop_last() =~= padded(n / 10, w));
        vstd::arithmetic::div_mod::lemma_mod_breakdown(n as int, 10, pow10(w) as int);
    }
}

proof fn lemma_value_push(s: Seq<char>, d: int, c: char, base: nat)
    requires
        0 <= d < 16,
        c == upper_digit(d) || c == lower_digit(d),
    ensures
        value_of(s.push(c), base) == value_of(s, base) * base + d,
{
    assert(s.push(c).drop_last() =~= s);
}

/// The hexadecimal forms stand for their number, four digits and two.
pub proof fn hex_digits_say_their_number(n: u16, b: u8)
    ensures
        hex4(n).len() == 4,
        value_of(hex4(n), 16) == n,
        hex_byte(b).len() == 4,
        hex_byte(b).take(2) == "0x"@,
        value_of(hex_byte(b).skip(2), 16) == b,
{
    let none = Seq::<char>::empty();
    assert(value_of(none, 16) == 0);
    let (w, x, y, z) = (n as int / 4096, n as int / 256 % 16, n as int / 16 % 16, n as int % 16);
    let one = none.push(upper_digit(w));
    let two = one.push(upper_digit(x));
    let three = two.push(upper_digit(y));
    lemma_value_push(none, w, upper_digit(w), 16);
    lemma_value_push(one, x, upper_digit(x), 16);
    lemma_value_push(two, y, upper_digit(y), 16);
    lemma_value_push(three, z, upper_digit(z), 16);
    assert(hex4(n) =~= three.push(upper_digit(z)));
    let (h, l) = (b as int / 16, b as int % 16);
    let high = none.push(lower_digit(h));
    lemma_value_push(none, h, lower_digit(h), 16);
    lemma_value_push(high, l, lower_digit(l), 16);
    reveal_strlit("0x");
    assert(hex_byte(b).take(2) =~= "0x"@);
    assert(hex_byte(b).skip(2) =~= high.push(lower_digit(l)));
}

/// A number with digits behind the point: without the point, its digits stand for the
/// whole number that is nearest to the value in units of its last digit.
#[verifier::spinoff_prover]
#[verifier::rlimit(30)]
pub proof fn fixed_points_say_the_nearest(n: int, unit: nat, places: nat) -> (q: nat)
    requires
        0 < unit,
    ensures
        ({
            let s = fixed_point(n, unit, places);
            let size = if n < 0 {
                -n
            } else {
                n
            };
            let sign = if n < 0 {
                1int
            } else {
                0
            };
            let point = if places == 0 {
                s.len() as int
            } else {
                s.len() - places - 1
            };
            &&& -(unit as int) <= 2 * (q * unit - size) <= unit
            &&& n < 0 ==> s[0] == '-'
            &&& sign < point <= s.len()
            &&& all_digits(s.subrange(sign, point))
            &&& places > 0 ==> s[point] == '.' && all_digits(s.skip(point + 1)) && value_of(
                s.subrange(sign, point),
                10,
            ) * pow10(places) + value_of(s.skip(point + 1), 10) == q
            &&& places == 0 ==> value_of(s.skip(sign), 10) == q
        }),
{
    reveal_strlit("-");
    reveal_strlit(".");
    let size = (if n < 0 {
        -n
    } else {
        n
    }) as nat;
    let q = rounded(size, unit);
    rounding_goes_to_the_nearest(size, unit);
    padded_digits_say_the_rest(q, places);
    let p = pow10(places);
    decimals_say_their_number(q / p);
    padded_digits_say_the_rest(q % p, places);
    let s = fixed_point(n, unit, places);
    let sign = if n < 0 {
        1int
    } else {
        0
    };
    vstd::arithmetic::div_mod::lemma_fundamental_div_mod(q as int, p as int);
    assert((q / p) * p == p * (q / p)) by (nonlinear_arith);
    vstd::arithmetic::div_mod::lemma_mod_twice(q as int, p as int);
    if places == 0 {
        assert(p == 1);
        assert(s.skip(sign) =~= decimal(q / p));
        assert(s.subrange(sign, s.len() as int) =~= decimal(q / p));
    } else {
        let point = s.len() - places - 1;
        assert(s.subrange(sign, point) =~= decimal(q / p));
        assert(s.skip(point + 1) =~= padded(q % p, places));
    }
    q
}

/// What is aligned is wide enough and no wider than it must be, and holds its text at
/// its end of the line and spaces everywhere else.
pub proof fn aligned_text_fills_its_columns(s: Seq<char>, width: nat, i: int)
    ensures
        ({
            let wide = if s.len() < width {
                width
            } else {
                s.len()
            };
            let left = left_aligned(s, width);
            let right = right_aligned(s, width);
            &&& left.len() == wide
            &&& right.len() == wide
            &&& left.take(s.len() as int) == s
            &&& right.skip(wide - s.len()) == s
            &&& s.len() <= i < wide ==> left[i] == ' '
            &&& 0 <= i < wide - s.len() ==> right[i] == ' '
        }),
{
    assert(left_aligned(s, width).take(s.len() as int) =~= s);
    let right = right_aligned(s, width);
    assert(right.skip(right.len() - s.len()) =~= s);
}

/// A whole number that 53 bits hold is a double; of any other, the nearest double is off
/// by no more than one part in 2^53.
pub proof fn doubles_keep_53_bits(n: nat)
    ensures
        n <= 0x20_0000_0000_0000 ==> whole_double(n) == n,
        -(n as int) <= 0x20_0000_0000_0000 * (whole_double(n) - n) <= n,
{
    power2::lemma2_to64();
    power2::lemma2_to64_rest();
    let j = lemma_double_unit(n, 0);
    let u = power2::pow2(j);
    power2::lemma_pow2_pos(j);
    power2::lemma_pow2_adds(52, j);
    rounding_goes_to_the_nearest(n, u);
    if j == 0 {
        assert(n / 1 == n);
        assert(n % 1 == 0);
        assert(n * 1 == n);
    } else {
        assert(0x10_0000_0000_0000 * u <= n);
    }
    if n == 0x20_0000_0000_0000 {
        if j > 1 {
            power2::lemma_pow2_strictly_increases(53, 52 + j);
        }
        if j == 1 {
            assert(n / 2 == 0x10_0000_0000_0000);
        }
    }
}

/// Lines of text as sequences of characters.
pub open spec fn lines(v: Seq<String>) -> Seq<Seq<char>> {
    v.map_values(|s: String| s@)
}

/// No lines yet.
pub fn no_lines() -> (out: Vec<String>)
    ensures
        lines(out@) == Seq::<Seq<char>>::empty(),
{
    let out: Vec<String> = Vec::new();
    assert(lines(out@) =~= Seq::<Seq<char>>::empty());
    out
}

/// One line more.
pub fn push_line(out: &mut Vec<String>, line: String)
    ensures
        lines(final(out)@) == lines(old(out)@).push(line@),
        final(out)@.len() == old(out)@.len() + 1,
{
    out.push(line);
    assert(lines(out@) =~= lines(old(out)@).push(line@));
}

/// What std makes of bytes that are not valid UTF-8: a text in which replacement
/// characters stand for the broken parts.
pub uninterp spec fn repaired_utf8(bytes: Seq<u8>) -> Seq<char>;

/// Bytes as text, with replacement characters where they are not valid UTF-8.
pub open spec fn lossy(bytes: Seq<u8>) -> Seq<char> {
    if utf8::valid_utf8(bytes) {
        utf8::decode_utf8(bytes)
    } else {
        repaired_utf8(bytes)
    }
}

/// `String::from_utf8_lossy`: valid UTF-8 comes back as the text it encodes;
/// anything else as a text that depends on the bytes alone.
#[verifier::external_body]
pub(crate) fn from_utf8_lossy(bytes: &[u8]) -> (s: String)
    ensures
        s@ == (if utf8::valid_utf8(bytes@) {
            utf8::decode_utf8(bytes@)
        } else {
            repaired_utf8(bytes@)
        }),
{
    String::from_utf8_lossy(bytes).into_owned()
}

/// A text as std's `Debug` shows it: in quotation marks, with what cannot be
/// printed escaped.
pub uninterp spec fn debug_text(s: Seq<char>) -> Seq<char>;

/// `<str as Debug>::fmt` through `format!`: the text it writes depends on the
/// characters alone.
#[verifier::external_body]
pub(crate) fn debug_str(s: &str) -> (shown: String)
    ensures
        shown@ == debug_text(s@),
{
    format!("{s:?}")
}

proof fn lemma_widened(a: nat, unit: nat, d: nat)
    requires
        0 < d,
    ensures
        ({
            let (b, u) = widened(a, unit, d);
            &&& b * unit == a * u
            &&& 0 < unit ==> 0 < u
            &&& 0 < a ==> 0x10_0000_0000_0000 * d <= b
            &&& a < 0x20_0000_0000_0000 * d ==> b < 0x20_0000_0000_0000 * d
            &&& a == 0 ==> b == 0
        }),
    decreases 0x20_0000_0000_0000 * d - a,
{
    if 0 < a < 0x10_0000_0000_0000 * d {
        lemma_widened(2 * a, 2 * unit, d);
        let (b, u) = widened(2 * a, 2 * unit, d);
        assert(b * unit == a * u) by (nonlinear_arith)
            requires
                b * (2 * unit) == (2 * a) * u,
        ;
    } else {
        assert(a * unit == unit * a) by (nonlinear_arith);
    }
}

/// The power of two that a fraction is widened by.
pub proof fn lemma_widened_power(a: nat, k: nat, d: nat) -> (j: nat)
    requires
        0 < d,
        a < 0x20_0000_0000_0000 * d,
    ensures
        widened(a, power2::pow2(k), d).1 == power2::pow2(j),
        k == 0 ==> a * power2::pow2(j) < 0x20_0000_0000_0000 * d,
    decreases 0x20_0000_0000_0000 * d - a,
{
    lemma_widened(a, power2::pow2(k), d);
    power2::lemma2_to64();
    let (b, u) = widened(a, power2::pow2(k), d);
    if 0 < a < 0x10_0000_0000_0000 * d {
        power2::lemma_pow2_unfold(k + 1);
        let j = lemma_widened_power(2 * a, k + 1, d);
        assert(b * 1 == b);
        j
    } else {
        assert(b * 1 == b);
        k
    }
}

/// The double nearest to a fraction has 53 significant bits, and no other number of so
/// many bits with its power of two is nearer.
pub proof fn nearest_doubles_are_near(n: nat, d: nat)
    requires
        0 < d,
        n < 0x20_0000_0000_0000 * d,
    ensures
        ({
            let (m, unit) = nearest_double(n, d);
            &&& 0 < unit
            &&& -(d as int) <= 2 * (m * d - n * unit) <= d
            &&& 0 < n ==> 0x10_0000_0000_0000 <= m <= 0x20_0000_0000_0000
            &&& n == 0 ==> m == 0
        }),
{
    let (a, unit) = widened(n, 1, d);
    lemma_widened(n, 1, d);
    assert(a * 1 == a);
    rounding_goes_to_the_nearest(a, d);
    let m = rounded(a, d);
    if 0 < n {
        lemma_rounds_below(a, d, 0x20_0000_0000_0000);
        assert(0x10_0000_0000_0000 <= m) by (nonlinear_arith)
            requires
                2 * (m * d - a) >= -(d as int),
                0x10_0000_0000_0000 * d <= a,
                0 < d,
        ;
    } else {
        assert(0nat / d == 0) by (nonlinear_arith)
            requires
                0 < d,
        ;
        assert(0nat % d == 0) by (nonlinear_arith)
            requires
                0 < d,
        ;
    }
}

/// A fraction is shown by the digits of the double that is nearest to it: a number of 53
/// bits, with a power of two.
pub proof fn doubles_are_shown_by_their_digits(n: nat, d: nat, places: nat) -> (r: (nat, nat))
    requires
        0 < d,
        n < 0x20_0000_0000_0000 * d,
    ensures
        0 < r.1,
        -(d as int) <= 2 * (r.0 * d - n * r.1) <= d,
        0 < n ==> 0x10_0000_0000_0000 <= r.0 <= 0x20_0000_0000_0000,
        double_text(n as int, d, places) == fixed_point((r.0 * pow10(places)) as int, r.1, places),
        0 < n ==> double_text(-(n as int), d, places) == fixed_point(
            -(r.0 * pow10(places)),
            r.1,
            places,
        ),
{
    nearest_doubles_are_near(n, d);
    nearest_double(n, d)
}

/// A bar is nothing but so many marks, and a gap nothing but so many spaces.
pub proof fn bars_and_gaps_are_as_wide_as_asked(n: nat, i: int)
    ensures
        bar(n).len() == n,
        spaces(n).len() == n,
        0 <= i < n ==> bar(n)[i] == '#' && spaces(n)[i] == ' ',
{
}

/// Bytes that are valid UTF-8 are read as the text they encode.
pub proof fn valid_text_is_read_as_it_is(t: Seq<char>)
    ensures
        lossy(utf8::encode_utf8(t)) == t,
{
    utf8::encode_utf8_valid_utf8(t);
    utf8::encode_utf8_decode_utf8(t);
}

/// A number and its negative are rounded alike, to one part in 2^53.
pub proof fn signed_doubles_mirror(n: nat)
    ensures
        signed_double(-(n as int)) == -signed_double(n as int),
        -(n as int) <= 0x20_0000_0000_0000 * (signed_double(n as int) - n) <= n,
{
    doubles_keep_53_bits(n);
}

/// Ids are written with capital letters, type bytes with small ones.
pub proof fn hex_digits_keep_their_case(n: u16, b: u8, i: int)
    ensures
        0 <= i < 4 ==> 48 <= hex4(n)[i] as int <= 57 || 65 <= hex4(n)[i] as int <= 70,
        2 <= i < 4 ==> 48 <= hex_byte(b)[i] as int <= 57 || 97 <= hex_byte(b)[i] as int <= 102,
{
    reveal_strlit("0x");
    if i == 2 {
        assert(hex_byte(b)[i] == lower_digit(b as int / 16));
    }
    if i == 3 {
        assert(hex_byte(b)[i] == lower_digit(b as int % 16));
    }
}

/// Bytes that are not valid UTF-8 are read as what std makes of them.
pub proof fn broken_text_is_repaired(b: Seq<u8>)
    ensures
        !utf8::valid_utf8(b) ==> lossy(b) == repaired_utf8(b),
        utf8::valid_utf8(b) ==> utf8::encode_utf8(lossy(b)) == b,
{
    if utf8::valid_utf8(b) {
        utf8::decode_utf8_encode_utf8(b);
    }
}

} // verus!

//! The command line of the modem: what its options mean, and what it prints.
use crate::band;
use crate::band::{Band, BandSet, DEFAULT_BAND};
use crate::chirp;
use crate::chirp::push_score_digits;
use crate::packet;
use crate::packet::{packet_samples, push_confidence, DecodeResult};
use crate::profile;
use crate::profile::{Profile, DEFAULT_PROFILE};
use crate::text;
use crate::text::{
    no_lines, push_decimal, push_double, push_line, to_whole_double,
};
use vstd::prelude::*;
use vstd::utf8;

verus! {

/// What the options ask for.
#[derive(Clone, Copy, Debug, PartialEq, Eq)]
pub struct Opts {
    pub profile: usize,
    pub band: Band,
}

/// Why the options cannot be met.
#[derive(Debug, PartialEq, Eq)]
pub enum CliError {
    /// They are not understood; the option to complain about, if there is one.
    Usage(Option<String>),
    /// A band cannot be tuned there.
    BadFreq(String),
    UnknownProfile(usize),
    UnknownBand(String),
}

/// A [`CliError`] with its texts as sequences.
#[verifier::ext_equal]
pub enum CliErrorView {
    Usage(Option<Seq<char>>),
    BadFreq(Seq<char>),
    UnknownProfile(usize),
    UnknownBand(Seq<char>),
}

impl View for CliError {
    type V = CliErrorView;

    open spec fn view(&self) -> CliErrorView {
        match *self {
            CliError::Usage(None) => CliErrorView::Usage(None),
            CliError::Usage(Some(o)) => CliErrorView::Usage(Some(o@)),
            CliError::BadFreq(e) => CliErrorView::BadFreq(e@),
            CliError::UnknownProfile(id) => CliErrorView::UnknownProfile(id),
            CliError::UnknownBand(name) => CliErrorView::UnknownBand(name@),
        }
    }
}

// --------------------------------------------------------------------------- //
// Numbers
// --------------------------------------------------------------------------- //
/// The number that a run of decimal digits spells.
pub open spec fn digits_value(digits: Seq<u8>) -> nat
    decreases digits.len(),
{
    if digits.len() == 0 {
        0
    } else {
        (10 * digits_value(digits.drop_last()) + (digits.last() - 48)) as nat
    }
}

/// Every byte is a decimal digit.
pub open spec fn are_digits(bytes: Seq<u8>) -> bool {
    forall|i: int| 0 <= i < bytes.len() ==> 48 <= #[trigger] bytes[i] <= 57
}

/// The number that a text spells: digits, behind a plus sign if one likes, that fit
/// in a word.
pub open spec fn number_of(bytes: Seq<u8>) -> Option<usize> {
    let digits = if bytes.len() > 0 && bytes[0] == 43 {
        bytes.skip(1)
    } else {
        bytes
    };
    if digits.len() > 0 && are_digits(digits) && digits_value(digits) <= usize::MAX {
        Some(digits_value(digits) as usize)
    } else {
        None
    }
}

proof fn lemma_digits_grow(digits: Seq<u8>, n: int)
    requires
        are_digits(digits),
        0 <= n <= digits.len(),
    ensures
        digits_value(digits.take(n)) <= digits_value(digits),
    decreases digits.len() - n,
{
    if n < digits.len() {
        lemma_digits_grow(digits, n + 1);
        assert(digits.take(n + 1).drop_last() =~= digits.take(n));
        assert(digits.take(n + 1).last() == digits[n]);
    } else {
        assert(digits.take(n) =~= digits);
    }
}

fn parse_number(arg: &str) -> (n: Option<usize>)
    ensures
        n == number_of(utf8::encode_utf8(arg@)),
{
    let bytes = arg.as_bytes();
    let first: usize = if bytes.len() > 0 && bytes[0] == 43 {
        1
    } else {
        0
    };
    let ghost digits = if first == 1 {
        bytes@.skip(1)
    } else {
        bytes@
    };
    if first >= bytes.len() {
        return None;
    }
    let mut value: usize = 0;
    let mut i: usize = first;
    assert(digits.take(0) =~= Seq::<u8>::empty());
    while i < bytes.len()
        invariant
            bytes@ == utf8::encode_utf8(arg@),
            first <= i <= bytes@.len(),
            first <= 1,
            digits.len() == bytes@.len() - first,
            forall|k: int| 0 <= k < digits.len() ==> #[trigger] digits[k] == bytes@[k + first],
            number_of(bytes@) == (if are_digits(digits) && digits_value(digits) <= usize::MAX {
                Some(digits_value(digits) as usize)
            } else {
                None
            }),
            are_digits(digits.take(i - first)),
            value == digits_value(digits.take(i - first)),
        decreases bytes@.len() - i,
    {
        let b: u8 = bytes[i];
        let ghost k = i - first;
        assert(digits[k] == b);
        assert(digits.take(k + 1).drop_last() =~= digits.take(k));
        assert(digits.take(k + 1).last() == b);
        if b < 48 || b > 57 {
            assert(!are_digits(digits));
            return None;
        }
        let wide: u128 = 10 * value as u128 + (b - 48) as u128;
        assert(wide == digits_value(digits.take(k + 1)));
        if wide > usize::MAX as u128 {
            proof {
                if are_digits(digits) {
                    lemma_digits_grow(digits, k + 1);
                }
            }
            return None;
        }
        value = wide as usize;
        assert forall|j: int| 0 <= j < k + 1 implies 48 <= #[trigger] digits.take(k + 1)[j] <= 57 by {
            if j < k {
                assert(digits.take(k)[j] == digits[j]);
            }
        }
        i = i + 1;
    }
    assert(digits.take(i - first) =~= digits);
    Some(value)
}

// --------------------------------------------------------------------------- //
// Options
// --------------------------------------------------------------------------- //
/// What was asked for so far.
#[verifier::ext_equal]
pub struct Asked {
    pub bands: band::BandSetView,
    pub band: Seq<char>,
    pub profile: usize,
}

/// What the arguments from `i` on ask for besides.
///
/// `hz[i]` is argument `i` read as a number of kilohertz, if it is one, in
/// thousandths of a hertz. A band is retuned under the name that was asked for last.
pub open spec fn asked_from(
    args: Seq<Seq<char>>,
    hz: Seq<Option<i64>>,
    i: int,
    a: Asked,
) -> Result<Asked, CliErrorView>
    decreases args.len() - i,
{
    if i < 0 || i >= args.len() {
        Ok(a)
    } else if args[i] == "--profile"@ {
        match (
            if i + 1 < args.len() {
                number_of(utf8::encode_utf8(args[i + 1]))
            } else {
                None
            }
        ) {
            Some(id) => asked_from(args, hz, i + 2, Asked { profile: id, ..a }),
            None => Err(CliErrorView::Usage(None)),
        }
    } else if args[i] == "--band"@ {
        if i + 1 < args.len() {
            asked_from(args, hz, i + 2, Asked { band: args[i + 1], ..a })
        } else {
            Err(CliErrorView::Usage(None))
        }
    } else if args[i] == "--freq"@ {
        match (
            if i + 1 < args.len() {
                hz[i + 1]
            } else {
                None
            }
        ) {
            None => Err(CliErrorView::Usage(None)),
            Some(f) => match (band::freq_refusal(f as int), band::named(a.bands.bands, a.band)) {
                (Some(why), _) => Err(CliErrorView::BadFreq(why)),
                (None, None) => Err(
                    CliErrorView::BadFreq("unknown band "@ + text::debug_text(a.band)),
                ),
                (None, Some(k)) => asked_from(
                    args,
                    hz,
                    i + 2,
                    Asked {
                        bands: band::BandSetView {
                            bands: a.bands.bands.update(k, a.bands.bands[k].retuned(f as i32)),
                            revision: (a.bands.revision + 1) as u64,
                        },
                        ..a
                    },
                ),
            },
        }
    } else {
        Err(CliErrorView::Usage(Some(args[i])))
    }
}

/// What is asked for without any option.
pub open spec fn asked_by_default() -> Asked {
    Asked {
        bands: band::BandSetView { bands: seq![band::ultra(), band::audio()], revision: 0 },
        band: "ULTRA"@,
        profile: DEFAULT_PROFILE,
    }
}

/// What the options mean.
pub open spec fn options(args: Seq<Seq<char>>, hz: Seq<Option<i64>>) -> Result<Opts, CliErrorView> {
    match asked_from(args, hz, 0, asked_by_default()) {
        Err(e) => Err(e),
        Ok(a) => if profile::profile_of(a.profile as int) is None {
            Err(CliErrorView::UnknownProfile(a.profile))
        } else {
            match band::named(a.bands.bands, a.band) {
                None => Err(CliErrorView::UnknownBand(a.band)),
                Some(k) => Ok(Opts { profile: a.profile, band: a.bands.bands[k] }),
            }
        },
    }
}

/// What [`parse_opts`] returns, with texts as sequences.
pub open spec fn opts_view(r: Result<Opts, CliError>) -> Result<Opts, CliErrorView> {
    match r {
        Ok(o) => Ok(o),
        Err(e) => Err(e@),
    }
}

/// Read the options. `hz[i]` is argument `i` read as a number of kilohertz, if it is
/// one, in thousandths of a hertz.
pub fn parse_opts(args: &[String], hz: &[Option<i64>]) -> (r: Result<Opts, CliError>)
    requires
        hz@.len() == args@.len(),
    ensures
        opts_view(r) == options(text::lines(args@), hz@),
{
    let mut set = BandSet::default();
    let mut band_name = DEFAULT_BAND.to_owned();
    let mut profile_id: usize = DEFAULT_PROFILE;
    let len: usize = args.len();
    let ghost all = text::lines(args@);
    let mut i: usize = 0;
    while i < len
        invariant
            len == args@.len(),
            hz@.len() == len,
            all == text::lines(args@),
            i <= len || i == len + 1,
            set@.revision <= i,
            asked_from(all, hz@, 0, asked_by_default()) == asked_from(
                all,
                hz@,
                i as int,
                Asked { bands: set@, band: band_name@, profile: profile_id },
            ),
        decreases len + 1 - i,
    {
        assert(all[i as int] == args@[i as int]@);
        let more: bool = len - i > 1;
        if more {
            assert(all[i + 1] == args@[i + 1]@);
        }
        if args[i] == "--profile".to_owned() {
            if !more {
                return Err(CliError::Usage(None));
            }
            match parse_number(args[i + 1].as_str()) {
                Some(id) => {
                    profile_id = id;
                },
                None => {
                    return Err(CliError::Usage(None));
                },
            }
        } else if args[i] == "--band".to_owned() {
            if !more {
                return Err(CliError::Usage(None));
            }
            band_name = args[i + 1].clone();
        } else if args[i] == "--freq".to_owned() {
            if !more {
                return Err(CliError::Usage(None));
            }
            match hz[i + 1] {
                None => {
                    return Err(CliError::Usage(None));
                },
                Some(f) => {
                    if let Err(e) = set.set_base_freq(band_name.as_str(), f) {
                        return Err(CliError::BadFreq(e));
                    }
                },
            }
        } else {
            return Err(CliError::Usage(Some(args[i].clone())));
        }
        i = i + 2;
    }
    if profile::profile(profile_id).is_none() {
        return Err(CliError::UnknownProfile(profile_id));
    }
    match set.get(band_name.as_str()) {
        None => Err(CliError::UnknownBand(band_name)),
        Some(b) => Ok(Opts { profile: profile_id, band: b }),
    }
}

/// What to print when the options cannot be met. With [`CliError::Usage`] the usage
/// follows.
pub open spec fn complaint(e: CliErrorView) -> Option<Seq<char>> {
    match e {
        CliErrorView::Usage(None) => None,
        CliErrorView::Usage(Some(o)) => Some("unknown option "@ + o),
        CliErrorView::BadFreq(why) => Some("bad --freq: "@ + why),
        CliErrorView::UnknownProfile(id) => Some("unknown profile "@ + text::decimal(id as nat)),
        CliErrorView::UnknownBand(name) => Some("unknown band "@ + name),
    }
}

impl CliError {
    /// What to print, if anything.
    pub fn message(&self) -> (line: Option<String>)
        ensures
            complaint(self@) == (match line {
                Some(l) => Some(l@),
                None => None,
            }),
    {
        match self {
            CliError::Usage(None) => None,
            CliError::Usage(Some(o)) => {
                let mut line = "unknown option ".to_owned();
                line.append(o.as_str());
                Some(line)
            },
            CliError::BadFreq(why) => {
                let mut line = "bad --freq: ".to_owned();
                line.append(why.as_str());
                Some(line)
            },
            CliError::UnknownProfile(id) => {
                let mut line = "unknown profile ".to_owned();
                push_decimal(&mut line, *id as u128);
                Some(line)
            },
            CliError::UnknownBand(name) => {
                let mut line = "unknown band ".to_owned();
                line.append(name.as_str());
                Some(line)
            },
        }
    }
}

// --------------------------------------------------------------------------- //
// Output
// --------------------------------------------------------------------------- //
/// The line of a packet that was written.
pub open spec fn written_line(
    samples: int,
    payload_len: int,
    id: int,
    p: Profile,
    b: Band,
) -> Seq<char> {
    "wrote "@ + text::decimal(samples as nat) + " samples ("@ + text::double_text(
        text::whole_double(packet::packet_sample_count(payload_len, p, b) as nat) as int,
        48_000,
        2,
    ) + "s) profile "@ + text::decimal(id as nat) + " "@ + p.name@ + " band "@ + b.name@ + " @ "@
        + text::double_text(b.base_freq as int, 1_000_000, 3) + " kHz"@
}

/// Say what was written: so many samples, for a payload of so many bytes.
pub fn written(samples: usize, payload_len: usize, id: usize, p: &Profile, b: &Band) -> (line: String)
    requires
        profile::profile_of(id as int) == Some(*p),
        14 * packet::padded_len(payload_len as int) <= usize::MAX,
        packet::frame_sample_count(payload_len as int, *p) <= usize::MAX,
        packet::packet_sample_count(payload_len as int, *p, *b) <= u64::MAX,
    ensures
        line@ == written_line(samples as int, payload_len as int, id as int, *p, *b),
{
    proof {
        packet::lemma_table_sizes(id as int, 0);
    }
    let mut line = "wrote ".to_owned();
    push_decimal(&mut line, samples as u128);
    line.append(" samples (");
    let length: u128 = to_whole_double(packet_samples(payload_len, p, b) as u128);
    push_double(&mut line, length as i128, 48_000, 2);
    line.append("s) profile ");
    push_decimal(&mut line, id as u128);
    line.append(" ");
    line.append(p.name);
    line.append(" band ");
    line.append(b.name);
    line.append(" @ ");
    push_double(&mut line, b.base_freq as i128, 1_000_000, 3);
    line.append(" kHz");
    line
}

/// The lines of a recording that was decoded, or was not.
pub open spec fn decoded_report(score: i32, peak: int, r: packet::DecodeView) -> Seq<Seq<char>> {
    let head = "preamble score "@ + chirp::score_digits(score, 3) + " at sample "@ + text::decimal(
        peak as nat,
    );
    if r.ok {
        seq![
            head,
            "OK profile="@ + (match r.profile_id {
                Some(id) => profile::profile_of(id as int).unwrap().name@,
                None => "?"@,
            }) + " conf="@ + packet::confidence_text(r.confidence) + " "@ + text::decimal(
                r.payload.len(),
            ) + " bytes"@,
            "payload: "@ + text::lossy(r.payload),
        ]
    } else {
        seq![head, "FAIL: "@ + r.reason]
    }
}

/// Say what a recording held.
pub fn report_decoded(score: i32, peak: usize, r: &DecodeResult) -> (out: Vec<String>)
    requires
        r.ok ==> (r.profile_id matches Some(id) ==> profile::profile_of(id as int) is Some),
    ensures
        text::lines(out@) == decoded_report(score, peak as int, r@),
{
    let mut out = no_lines();
    let mut head = "preamble score ".to_owned();
    push_score_digits(&mut head, score, 3);
    head.append(" at sample ");
    push_decimal(&mut head, peak as u128);
    push_line(&mut out, head);
    if r.ok {
        let mut line = "OK profile=".to_owned();
        match r.profile_id {
            Some(id) => {
                match profile::profile(id) {
                    Some(p) => line.append(p.name),
                    None => {},
                }
            },
            None => line.append("?"),
        }
        line.append(" conf=");
        push_confidence(&mut line, r.confidence);
        line.append(" ");
        push_decimal(&mut line, r.payload.len() as u128);
        line.append(" bytes");
        push_line(&mut out, line);
        let mut body = "payload: ".to_owned();
        body.append(text::from_utf8_lossy(r.payload.as_slice()).as_str());
        push_line(&mut out, body);
    } else {
        let mut line = "FAIL: ".to_owned();
        line.append(r.reason.as_str());
        push_line(&mut out, line);
    }
    assert(text::lines(out@) =~= decoded_report(score, peak as int, r@));
    out
}

// --------------------------------------------------------------------------- //
// What the options come to
// --------------------------------------------------------------------------- //
/// The digits as characters.
pub open spec fn as_chars(digits: Seq<u8>) -> Seq<char> {
    Seq::new(digits.len(), |i: int| digits[i] as char)
}

proof fn lemma_digits_value(digits: Seq<u8>)
    requires
        are_digits(digits),
    ensures
        digits_value(digits) == text::value_of(as_chars(digits), 10),
    decreases digits.len(),
{
    if digits.len() > 0 {
        let rest = digits.drop_last();
        assert forall|i: int| 0 <= i < rest.len() implies 48 <= #[trigger] rest[i] <= 57 by {
            assert(rest[i] == digits[i]);
        }
        lemma_digits_value(rest);
        assert(as_chars(digits).drop_last() =~= as_chars(rest));
        let last = digits[digits.len() - 1];
        assert(48 <= last <= 57);
    }
}

/// A number is read exactly where there is nothing but digits, and at least one, and a
/// word holds what they stand for; a plus sign in front changes nothing.
pub proof fn numbers_are_read_as_they_are_written(digits: Seq<u8>)
    ensures
        ({
            let whole = digits.len() > 0 && are_digits(digits);
            let value = text::value_of(as_chars(digits), 10);
            &&& whole && value <= usize::MAX ==> number_of(digits) == Some(value as usize)
            &&& whole ==> number_of(seq![43u8] + digits) == number_of(digits)
            &&& whole && value > usize::MAX ==> number_of(digits) is None
            &&& !whole && (digits.len() == 0 || digits[0] != 43) ==> number_of(digits) is None
            &&& !whole ==> number_of(seq![43u8] + digits) is None
        }),
{
    let signed = seq![43u8] + digits;
    assert(signed.skip(1) =~= digits);
    if digits.len() > 0 && are_digits(digits) {
        assert(48 <= digits[0] <= 57);
        lemma_digits_value(digits);
    }
}

/// A band of a modem: one of the two there are, at its own frequency or at one that is
/// usable.
pub open spec fn is_a_band(b: Band) -> bool {
    &&& b == band::ultra().retuned(b.base_freq) || b == band::audio().retuned(b.base_freq)
    &&& b == band::ultra() || b == band::audio() || 700_000 <= b.base_freq <= 20_200_000
}

/// The pairs of options from place `i` on.
pub open spec fn at_option(i: int, k: int, len: int) -> bool {
    i <= k < len && (k - i) % 2 == 0
}

proof fn lemma_asked(args: Seq<Seq<char>>, hz: Seq<Option<i64>>, i: int, a: Asked, k: int)
    requires
        0 <= i,
        forall|n: int| 0 <= n < a.bands.bands.len() ==> is_a_band(#[trigger] a.bands.bands[n]),
    ensures
        asked_from(args, hz, i, a) matches Ok(r) ==> {
            &&& i <= args.len() ==> (args.len() - i) % 2 == 0
            &&& forall|n: int|
                0 <= n < r.bands.bands.len() ==> is_a_band(#[trigger] r.bands.bands[n])
            &&& at_option(i, k, args.len() as int) ==> args[k] == "--profile"@ || args[k]
                == "--band"@ || args[k] == "--freq"@
            &&& (forall|j: int| at_option(i, j, args.len() as int) ==> args[j] != "--profile"@)
                ==> r.profile == a.profile
            &&& (forall|j: int| at_option(i, j, args.len() as int) ==> args[j] != "--band"@)
                ==> r.band == a.band
            &&& (at_option(i, k, args.len() as int) && args[k] == "--profile"@ && forall|j: int|
                at_option(i, j, args.len() as int) && k < j ==> args[j] != "--profile"@)
                ==> number_of(utf8::encode_utf8(args[k + 1])) == Some(r.profile)
            &&& (at_option(i, k, args.len() as int) && args[k] == "--band"@ && forall|j: int|
                at_option(i, j, args.len() as int) && k < j ==> args[j] != "--band"@)
                ==> r.band == args[k + 1]
            &&& (forall|j: int| at_option(i, j, args.len() as int) ==> args[j] != "--freq"@)
                ==> r.bands == a.bands
            &&& (at_option(i, k, args.len() as int) && args[k] == "--freq"@ && forall|j: int|
                at_option(i, j, args.len() as int) && k < j ==> args[j] != "--freq"@)
                ==> hz[k + 1] is Some && exists|n: int|
                0 <= n < r.bands.bands.len() && (#[trigger] r.bands.bands[n]).base_freq == hz[k
                    + 1].unwrap()
        },
    decreases args.len() - i,
{
    if i < args.len() {
        reveal_strlit("--profile");
        reveal_strlit("--band");
        reveal_strlit("--freq");
        let len = args.len() as int;
        assert(at_option(i, i, len));
        assert("--profile"@.len() == 9 && "--band"@.len() == 6 && "--freq"@.len() == 6);
        assert("--band"@[2] != "--freq"@[2]);
        assert forall|j: int| at_option(i + 2, j, len) implies at_option(i, j, len) by {}
        assert forall|j: int| at_option(i, j, len) && j != i implies at_option(i + 2, j, len) by {}
        if args[i] == "--profile"@ {
            if i + 1 < len {
                if let Some(id) = number_of(utf8::encode_utf8(args[i + 1])) {
                    lemma_asked(args, hz, i + 2, Asked { profile: id, ..a }, k);
                }
            }
        } else if args[i] == "--band"@ {
            if i + 1 < len {
                lemma_asked(args, hz, i + 2, Asked { band: args[i + 1], ..a }, k);
            }
        } else if args[i] == "--freq"@ {
            if i + 1 < len {
                if let Some(f) = hz[i + 1] {
                    if let Some(n) = band::named(a.bands.bands, a.band) {
                        if band::freq_refusal(f as int) is None {
                            band::usable_frequencies(f as int);
                            band::lemma_named(a.bands.bands, a.band);
                            let tuned = a.bands.bands[n].retuned(f as i32);
                            assert(is_a_band(a.bands.bands[n]));
                            assert(is_a_band(tuned));
                            let more = Asked {
                                bands: band::BandSetView {
                                    bands: a.bands.bands.update(n, tuned),
                                    revision: (a.bands.revision + 1) as u64,
                                },
                                ..a
                            };
                            assert(more.bands.bands[n].base_freq == f);
                            lemma_asked(args, hz, i + 2, more, k);
                        }
                    }
                }
            }
        }
    }
}

/// Whatever the options, what they come to can be used: a profile there is, and one of the
/// two bands, at its own frequency or at one that was found usable. They come in pairs,
/// each led by one of the three there are. The last profile that is named counts, and the
/// default where none is; and so with the band. Without a frequency both bands stay where
/// they are.
pub proof fn options_come_to_something_usable(
    args: Seq<Seq<char>>,
    hz: Seq<Option<i64>>,
    k: int,
)
    ensures
        options(args, hz) matches Ok(o) ==> {
            let len = args.len() as int;
            &&& o.profile <= 2
            &&& is_a_band(o.band)
            &&& len % 2 == 0
            &&& at_option(0, k, len) ==> args[k] == "--profile"@ || args[k] == "--band"@ || args[k]
                == "--freq"@
            &&& (forall|j: int| at_option(0, j, len) ==> args[j] != "--profile"@) ==> o.profile
                == 1
            &&& (at_option(0, k, len) && args[k] == "--profile"@ && forall|j: int|
                at_option(0, j, len) && k < j ==> args[j] != "--profile"@) ==> number_of(
                utf8::encode_utf8(args[k + 1]),
            ) == Some(o.profile)
            &&& (forall|j: int| at_option(0, j, len) ==> args[j] != "--band"@) ==> o.band.name@
                == "ULTRA"@
            &&& (at_option(0, k, len) && args[k] == "--band"@ && forall|j: int|
                at_option(0, j, len) && k < j ==> args[j] != "--band"@) ==> o.band.name@ == args[k
                + 1]
            &&& (forall|j: int| at_option(0, j, len) ==> args[j] != "--freq"@) ==> o.band
                == band::ultra() || o.band == band::audio()
        },
{
    let a = asked_by_default();
    assert forall|n: int| 0 <= n < a.bands.bands.len() implies is_a_band(
        #[trigger] a.bands.bands[n],
    ) by {}
    lemma_asked(args, hz, 0, a, k);
    if let Ok(r) = asked_from(args, hz, 0, a) {
        band::lemma_named(r.bands.bands, r.band);
    }
}

/// The last frequency that is asked for is tuned to: one of the bands stands there, whatever
/// else is asked for behind it.
pub proof fn the_last_frequency_is_tuned_to(
    args: Seq<Seq<char>>,
    hz: Seq<Option<i64>>,
    k: int,
)
    requires
        at_option(0, k, args.len() as int),
        args[k] == "--freq"@,
        forall|j: int| at_option(0, j, args.len() as int) && k < j ==> args[j] != "--freq"@,
    ensures
        asked_from(args, hz, 0, asked_by_default()) matches Ok(r) ==> hz[k + 1] is Some && exists|
            n: int,
        |
            0 <= n < r.bands.bands.len() && (#[trigger] r.bands.bands[n]).base_freq == hz[k
                + 1].unwrap(),
{
    let a = asked_by_default();
    assert forall|n: int| 0 <= n < a.bands.bands.len() implies is_a_band(
        #[trigger] a.bands.bands[n],
    ) by {}
    lemma_asked(args, hz, 0, a, k);
}

/// Where the last thing asked for is a frequency, the band that is used stands there.
pub proof fn a_frequency_is_tuned_to(a: Asked, args: Seq<Seq<char>>, hz: Seq<Option<i64>>, i: int)
    requires
        0 <= i,
        i + 2 == args.len(),
        args[i] == "--freq"@,
    ensures
        asked_from(args, hz, i, a) matches Ok(r) ==> {
            &&& hz[i + 1] is Some
            &&& r.band == a.band
            &&& r.profile == a.profile
            &&& band::named(r.bands.bands, r.band) matches Some(k) && r.bands.bands[k].base_freq
                == hz[i + 1].unwrap()
        },
        asked_from(args, hz, i, a) is Ok <==> hz[i + 1] is Some && 700_000 <= hz[i + 1].unwrap()
            <= 20_200_000 && band::named(a.bands.bands, a.band) is Some,
{
    reveal_strlit("--profile");
    reveal_strlit("--band");
    reveal_strlit("--freq");
    assert("--profile"@.len() == 9 && "--band"@.len() == 6 && "--freq"@.len() == 6);
    assert("--band"@[2] != "--freq"@[2]);
    reveal_with_fuel(asked_from, 3);
    if let Some(f) = hz[i + 1] {
        band::usable_frequencies(f as int);
        if let Some(n) = band::named(a.bands.bands, a.band) {
            if band::freq_refusal(f as int) is None {
                band::a_retune_is_found_under_the_same_name(a.bands.bands, a.band, f as i32);
            }
        }
    }
}

/// A recording that was decoded is reported in three lines, the last of them its payload;
/// one that was not in two, the last of them why.
pub proof fn recordings_are_reported(score: i32, peak: int, r: packet::DecodeView)
    ensures
        decoded_report(score, peak, r).len() == (if r.ok {
            3nat
        } else {
            2
        }),
        decoded_report(score, peak, r).last() == (if r.ok {
            "payload: "@ + text::lossy(r.payload)
        } else {
            "FAIL: "@ + r.reason
        }),
{
}

/// Every refusal but a plain call for the usage is said in one line that ends with what is
/// complained about.
pub proof fn refusals_say_what_they_are_about(e: CliErrorView, o: Seq<char>, id: usize)
    ensures
        complaint(e) is None <==> e == CliErrorView::Usage(None),
        complaint(CliErrorView::Usage(Some(o))) == Some("unknown option "@ + o),
        complaint(CliErrorView::BadFreq(o)) == Some("bad --freq: "@ + o),
        complaint(CliErrorView::UnknownBand(o)) == Some("unknown band "@ + o),
        complaint(CliErrorView::UnknownProfile(id)) == Some(
            "unknown profile "@ + text::decimal(id as nat),
        ),
{
}

/// Without options the default band and profile are used. Both bands can be asked for by
/// their names, and no other.
pub proof fn both_bands_can_be_asked_for(name: Seq<char>, hz: Seq<Option<i64>>)
    ensures
        options(Seq::empty(), hz) == Ok::<Opts, CliErrorView>(
            (Opts { profile: 1, band: band::ultra() }),
        ),
        options(seq!["--band"@, name], hz) == (if name == "ULTRA"@ {
            Ok(Opts { profile: 1, band: band::ultra() })
        } else if name == "AUDIO"@ {
            Ok(Opts { profile: 1, band: band::audio() })
        } else {
            Err(CliErrorView::UnknownBand(name))
        }),
{
    reveal_strlit("--profile");
    reveal_strlit("--band");
    reveal_strlit("ULTRA");
    reveal_strlit("AUDIO");
    assert("--profile"@.len() == 9 && "--band"@.len() == 6);
    assert("ULTRA"@[0] != "AUDIO"@[0]);
    reveal_with_fuel(asked_from, 3);
    reveal_with_fuel(band::named_from, 4);
    let a = asked_by_default();
    assert(a.bands.bands[0].name@ == "ULTRA"@);
    assert(a.bands.bands[1].name@ == "AUDIO"@);
    assert(band::named(a.bands.bands, "ULTRA"@) == Some(0int));
    assert(band::named(a.bands.bands, "AUDIO"@) == Some(1int));
    let args = seq!["--band"@, name];
    assert(asked_from(args, hz, 0, a) == Ok::<Asked, CliErrorView>(Asked { band: name, ..a }));
    if name != "ULTRA"@ && name != "AUDIO"@ {
        assert(band::named(a.bands.bands, name) is None);
    }
}

/// Options that are understood are still refused where they name a profile that there is
/// not, or else a band that there is not; and only there.
pub proof fn unknown_names_are_refused(args: Seq<Seq<char>>, hz: Seq<Option<i64>>)
    ensures
        asked_from(args, hz, 0, asked_by_default()) matches Err(e) ==> options(args, hz) == Err::<
            Opts,
            CliErrorView,
        >(e),
        asked_from(args, hz, 0, asked_by_default()) matches Ok(a) ==> {
            let known = band::named(a.bands.bands, a.band);
            &&& a.profile > 2 ==> options(args, hz) == Err::<Opts, CliErrorView>(
                CliErrorView::UnknownProfile(a.profile),
            )
            &&& a.profile <= 2 && known is None ==> options(args, hz) == Err::<Opts, CliErrorView>(
                CliErrorView::UnknownBand(a.band),
            )
            &&& a.profile <= 2 && known is Some ==> options(args, hz) is Ok && options(
                args,
                hz,
            )->Ok_0.profile == a.profile && options(args, hz)->Ok_0.band.name@ == a.band
        },
{
    if let Ok(a) = asked_from(args, hz, 0, asked_by_default()) {
        band::lemma_named(a.bands.bands, a.band);
    }
}

/// What is said of a packet that was written and of a recording that was decoded.
pub proof fn lines_tell_what_was_done(
    samples: int,
    len: int,
    id: int,
    p: Profile,
    b: Band,
    score: i32,
    peak: int,
    r: packet::DecodeView,
)
    ensures
        written_line(samples, len, id, p, b) == "wrote "@ + text::decimal(samples as nat)
            + " samples ("@ + text::double_text(
            text::whole_double(packet::packet_sample_count(len, p, b) as nat) as int,
            48_000,
            2,
        ) + "s) profile "@ + text::decimal(id as nat) + " "@ + p.name@ + " band "@ + b.name@
            + " @ "@ + text::double_text(b.base_freq as int, 1_000_000, 3) + " kHz"@,
        decoded_report(score, peak, r)[0] == "preamble score "@ + chirp::score_digits(score, 3)
            + " at sample "@ + text::decimal(peak as nat),
        r.ok && r.profile_id == Some(id as usize) && profile::profile_of(id) == Some(p)
            ==> decoded_report(score, peak, r)[1] == "OK profile="@ + p.name@ + " conf="@
            + packet::confidence_text(r.confidence) + " "@ + text::decimal(r.payload.len())
            + " bytes"@,
{
}

} // verus!

//! Which sound card to use, and how.
//!
//! Talking to the card is left to whoever has one; what to ask it for, and what to
//! tell the user when it cannot, is decided here.
use crate::packet;
use crate::text;
use crate::text::{no_lines, push_decimal, push_line, round_half_even};
use crate::SAMPLE_RATE;
use vstd::prelude::*;

verus! {

/// The devices to use by name; the default ones where there is none.
#[derive(Clone, Debug)]
pub struct CpalBackend {
    pub input: Option<String>,
    pub output: Option<String>,
}

impl Default for CpalBackend {
    fn default() -> (b: Self)
        ensures
            b.input is None,
            b.output is None,
    {
        CpalBackend { input: None, output: None }
    }
}

/// What to open.
#[derive(Clone, Copy, Debug, PartialEq, Eq, Structural)]
pub enum Pick {
    /// The default device of the host.
    HostDefault,
    /// The device at this place of the list.
    Listed(usize),
}

/// `input` or `output`.
pub open spec fn direction(want_input: bool) -> Seq<char> {
    if want_input {
        "input"@
    } else {
        "output"@
    }
}

/// The first device from `i` on that has this name. One whose name could not be
/// read has none.
pub open spec fn listed_from(names: Seq<Option<String>>, name: Seq<char>, i: int) -> Option<int>
    decreases names.len() - i,
{
    if i < 0 || i >= names.len() {
        None
    } else if names[i] is Some && names[i].unwrap()@ == name {
        Some(i)
    } else {
        listed_from(names, name, i + 1)
    }
}

impl CpalBackend {
    pub fn new(input: Option<String>, output: Option<String>) -> (b: Self)
        ensures
            b.input == input,
            b.output == output,
    {
        CpalBackend { input, output }
    }

    /// The name to look for.
    pub open spec fn wanted(self, want_input: bool) -> Option<String> {
        if want_input {
            self.input
        } else {
            self.output
        }
    }

    /// Which of the listed devices to open.
    pub fn device(&self, want_input: bool, names: &[Option<String>]) -> (r: Result<Pick, String>)
        ensures
            match self.wanted(want_input) {
                None => r == Ok::<Pick, String>(Pick::HostDefault),
                Some(name) => match listed_from(names@, name@, 0) {
                    Some(i) => r == Ok::<Pick, String>(Pick::Listed(i as usize)),
                    None => r matches Err(e) && e@ == "no such "@ + direction(want_input)
                        + " device: "@ + name@,
                },
            },
    {
        let wanted = if want_input {
            &self.input
        } else {
            &self.output
        };
        match wanted {
            None => Ok(Pick::HostDefault),
            Some(name) => {
                let mut i: usize = 0;
                while i < names.len()
                    invariant
                        i <= names@.len(),
                        self.wanted(want_input) == Some(*name),
                        listed_from(names@, name@, 0) == listed_from(names@, name@, i as int),
                    decreases names@.len() - i,
                {
                    if let Some(candidate) = &names[i] {
                        if *candidate == *name {
                            return Ok(Pick::Listed(i));
                        }
                    }
                    i = i + 1;
                }
                let mut why = "no such ".to_owned();
                why.append(
                    if want_input {
                        "input"
                    } else {
                        "output"
                    },
                );
                why.append(" device: ");
                why.append(name.as_str());
                Err(why)
            },
        }
    }
}

/// The complaint where the host has no default device.
pub fn no_default_device(want_input: bool) -> (why: String)
    ensures
        why@ == "no default "@ + direction(want_input) + " device"@,
{
    let mut why = "no default ".to_owned();
    why.append(
        if want_input {
            "input"
        } else {
            "output"
        },
    );
    why.append(" device");
    why
}

/// A range of configurations that a device offers.
#[derive(Clone, Copy, Debug, PartialEq, Eq, Structural)]
pub struct ConfigRange {
    /// Samples are 32-bit floats.
    pub is_f32: bool,
    pub min_rate: u32,
    pub max_rate: u32,
    pub channels: u16,
}

/// A range that the modem can use.
pub open spec fn usable(r: ConfigRange) -> bool {
    r.is_f32 && r.min_rate <= SAMPLE_RATE <= r.max_rate
}

/// Pick a configuration at exactly 48 kHz, preferring mono: how many channels to
/// open.
///
/// The sample rate is not negotiable: every timing constant in the modem is
/// expressed in samples at 48 kHz, so a device that will not run there cannot carry
/// this link at all.
pub fn config(ranges: &[ConfigRange]) -> (r: Result<u16, String>)
    ensures
        match r {
            Ok(channels) => {
                &&& exists|i: int|
                    0 <= i < ranges@.len() && usable(#[trigger] ranges@[i]) && ranges@[i].channels
                        == channels
                &&& forall|i: int|
                    0 <= i < ranges@.len() && usable(#[trigger] ranges@[i]) ==> channels
                        <= ranges@[i].channels
            },
            Err(e) => {
                &&& forall|i: int| 0 <= i < ranges@.len() ==> !usable(#[trigger] ranges@[i])
                &&& e@ == "device does not support f32 at "@ + text::decimal(SAMPLE_RATE as nat)
                    + " Hz (set it to 48000 Hz in the OS sound settings)"@
            },
        },
{
    let mut best: Option<u16> = None;
    let mut i: usize = 0;
    while i < ranges.len()
        invariant
            i <= ranges@.len(),
            match best {
                Some(channels) => {
                    &&& exists|k: int|
                        0 <= k < i && usable(#[trigger] ranges@[k]) && ranges@[k].channels
                            == channels
                    &&& forall|k: int|
                        0 <= k < i && usable(#[trigger] ranges@[k]) ==> channels
                            <= ranges@[k].channels
                },
                None => forall|k: int| 0 <= k < i ==> !usable(#[trigger] ranges@[k]),
            },
        decreases ranges@.len() - i,
    {
        let r = ranges[i];
        if r.is_f32 && r.min_rate <= SAMPLE_RATE && r.max_rate >= SAMPLE_RATE {
            assert(usable(ranges@[i as int]));
            let better: bool = match best {
                Some(channels) => r.channels < channels,
                None => true,
            };
            if better {
                best = Some(r.channels);
            }
        }
        i = i + 1;
    }
    match best {
        Some(channels) => Ok(channels),
        None => {
            let mut why = "device does not support f32 at ".to_owned();
            push_decimal(&mut why, SAMPLE_RATE as u128);
            why.append(" Hz (set it to 48000 Hz in the OS sound settings)");
            Err(why)
        },
    }
}

/// How long playback of so many samples may take before the device counts as dead,
/// in nanoseconds: its own length, to the nearest, and five seconds. A time that no clock can hold
/// ends where the clock does.
pub fn playback_limit(samples: usize) -> (ns: u64)
    ensures
        ns == (if packet::nearest_ns(samples as int) + 5_000_000_000 < u64::MAX {
            packet::nearest_ns(samples as int) + 5_000_000_000
        } else {
            u64::MAX as int
        }),
{
    let limit: u128 = round_half_even(samples as u128 * 1_000_000_000, 48_000) + 5_000_000_000;
    if limit < u64::MAX as u128 {
        limit as u64
    } else {
        u64::MAX
    }
}

/// A mono source on its way to a device, one sample after the other.
#[derive(Clone, Copy, Debug, PartialEq, Eq, Structural)]
pub struct Playback {
    pub pos: usize,
    pub len: usize,
}

impl Playback {
    /// Which sample the next device frame carries, on every channel; silence behind
    /// the last.
    pub fn next(&mut self) -> (at: Option<usize>)
        ensures
            at == (if old(self).pos < old(self).len {
                Some(old(self).pos)
            } else {
                None
            }),
            final(self).len == old(self).len,
            final(self).pos == (if old(self).pos < old(self).len {
                old(self).pos + 1
            } else {
                old(self).pos as int
            }),
    {
        if self.pos < self.len {
            let at: usize = self.pos;
            self.pos = at + 1;
            Some(at)
        } else {
            None
        }
    }

    /// Every sample was handed out.
    pub fn done(&self) -> (yes: bool)
        ensures
            yes == (self.pos >= self.len),
    {
        self.pos >= self.len
    }
}

/// The line of one device.
pub open spec fn device_line(kind: Seq<char>, name: Option<String>, default: Option<String>) -> Seq<
    char,
> {
    let shown = match name {
        Some(n) => n@,
        None => "?"@,
    };
    "  "@ + kind + shown + (if default is Some && default.unwrap()@ == shown {
        " *default"@
    } else {
        ""@
    })
}

/// The lines of a list of devices.
pub open spec fn device_lines(
    kind: Seq<char>,
    names: Seq<Option<String>>,
    default: Option<String>,
) -> Seq<Seq<char>> {
    Seq::new(names.len(), |i: int| device_line(kind, names[i], default))
}

fn push_devices(
    out: &mut Vec<String>,
    kind: &str,
    names: &[Option<String>],
    default: &Option<String>,
)
    ensures
        text::lines(final(out)@) == text::lines(old(out)@) + device_lines(
            kind@,
            names@,
            *default,
        ),
{
    let ghost start = text::lines(out@);
    let ghost all = device_lines(kind@, names@, *default);
    let mut i: usize = 0;
    assert(start + all.take(0) =~= start);
    while i < names.len()
        invariant
            i <= names@.len(),
            all == device_lines(kind@, names@, *default),
            text::lines(out@) == start + all.take(i as int),
        decreases names@.len() - i,
    {
        let shown: String = match &names[i] {
            Some(n) => n.clone(),
            None => "?".to_owned(),
        };
        let star: bool = match default {
            Some(d) => *d == shown,
            None => false,
        };
        let mut line = "  ".to_owned();
        line.append(kind);
        line.append(shown.as_str());
        line.append(
            if star {
                " *default"
            } else {
                ""
            },
        );
        assert(line@ == all[i as int]);
        push_line(out, line);
        assert(start + all.take(i + 1) =~= (start + all.take(i as int)).push(all[i as int]));
        i = i + 1;
    }
    assert(all.take(i as int) =~= all);
}

/// Human-readable device inventory, for a `/devices`-style listing.
pub fn list_devices(
    inputs: &[Option<String>],
    outputs: &[Option<String>],
    default_input: Option<String>,
    default_output: Option<String>,
) -> (out: Vec<String>)
    ensures
        text::lines(out@) == (if inputs@.len() == 0 && outputs@.len() == 0 {
            seq!["  (no audio devices found)"@]
        } else {
            device_lines("in   "@, inputs@, default_input) + device_lines(
                "out  "@,
                outputs@,
                default_output,
            )
        }),
{
    let mut out = no_lines();
    push_devices(&mut out, "in   ", inputs, &default_input);
    push_devices(&mut out, "out  ", outputs, &default_output);
    let ghost told = device_lines("in   "@, inputs@, default_input) + device_lines(
        "out  "@,
        outputs@,
        default_output,
    );
    assert(text::lines(out@) =~= told);
    if out.len() == 0 {
        assert(told.len() == 0);
        push_line(&mut out, "  (no audio devices found)".to_owned());
        assert(text::lines(out@) =~= seq!["  (no audio devices found)"@]);
    } else {
        assert(told.len() > 0);
    }
    out
}

/// The device that is opened is the first one of that name, and there is none exactly
/// where none has it.
pub proof fn the_first_device_of_a_name_is_opened(
    names: Seq<Option<String>>,
    name: Seq<char>,
    i: int,
)
    requires
        0 <= i,
    ensures
        match listed_from(names, name, i) {
            Some(k) => i <= k < names.len() && names[k] is Some && names[k].unwrap()@ == name
                && forall|j: int|
                i <= j < k && (#[trigger] names[j]) is Some ==> names[j].unwrap()@ != name,
            None => forall|j: int|
                i <= j < names.len() && (#[trigger] names[j]) is Some ==> names[j].unwrap()@
                    != name,
        },
    decreases names.len() - i,
{
    if i < names.len() && !(names[i] is Some && names[i].unwrap()@ == name) {
        the_first_device_of_a_name_is_opened(names, name, i + 1);
    }
}

/// A range can be used exactly where it holds floats at 48 kHz, whatever else it holds.
pub proof fn ranges_must_hold_48_khz(r: ConfigRange)
    ensures
        usable(r) <==> r.is_f32 && r.min_rate <= 48_000 && 48_000 <= r.max_rate,
{
}

/// Every device has its line, and only the default one is marked: its line is longer by
/// the mark.
pub proof fn only_the_default_device_is_marked(kind: Seq<char>, name: String, default: Option<String>)
    ensures
        ({
            let plain = "  "@ + kind + name@;
            let line = device_line(kind, Some(name), default);
            &&& line.take(plain.len() as int) == plain
            &&& line.skip(plain.len() as int) == (if default is Some && default.unwrap()@
                == name@ {
                " *default"@
            } else {
                ""@
            })
        }),
{
    let plain = "  "@ + kind + name@;
    let line = device_line(kind, Some(name), default);
    let mark = if default is Some && default.unwrap()@ == name@ {
        " *default"@
    } else {
        ""@
    };
    assert(line =~= plain + mark);
    assert(line.take(plain.len() as int) =~= plain);
    assert(line.skip(plain.len() as int) =~= mark);
}

/// The name that is looked for is the one that was given for its direction.
pub proof fn each_direction_has_its_own_device(b: CpalBackend, i: int, names: Seq<Option<String>>)
    requires
        0 <= i < names.len(),
    ensures
        b.wanted(true) == b.input,
        b.wanted(false) == b.output,
        direction(true) == "input"@,
        direction(false) == "output"@,
        device_lines("in   "@, names, b.input).len() == names.len(),
        device_lines("in   "@, names, b.input)[i] == device_line("in   "@, names[i], b.input),
{
}

} // verus!

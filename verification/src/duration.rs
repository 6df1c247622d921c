//! Durations as a person writes them, such as `30s` or `1h 30m`.

use vstd::prelude::*;

use crate::text::{chars_of, is_digit, is_white, same, string_of, white};

verus! {

/// The nanoseconds in a second.
pub const NANOS_PER_SECOND: u128 = 1_000_000_000;

/// The nanoseconds of the first whole second that a `u64` cannot count.
pub const TOO_LONG: u128 = 18_446_744_073_709_551_616_000_000_000;

/// The nanoseconds of a unit by its name, none where it names no unit.
pub open spec fn unit_nanos(name: Seq<char>) -> int {
    if name == "nanos"@ || name == "nsec"@ || name == "ns"@ {
        1
    } else if name == "usec"@ || name == "us"@ || name == "\u{b5}s"@ {
        1_000
    } else if name == "millis"@ || name == "msec"@ || name == "ms"@ {
        1_000_000
    } else if name == "seconds"@ || name == "second"@ || name == "secs"@ || name == "sec"@ || name
        == "s"@ {
        NANOS_PER_SECOND as int
    } else if name == "minutes"@ || name == "minute"@ || name == "min"@ || name == "mins"@ || name
        == "m"@ {
        60 * NANOS_PER_SECOND
    } else if name == "hours"@ || name == "hour"@ || name == "hr"@ || name == "hrs"@ || name
        == "h"@ {
        3_600 * NANOS_PER_SECOND
    } else if name == "days"@ || name == "day"@ || name == "d"@ {
        86_400 * NANOS_PER_SECOND
    } else if name == "weeks"@ || name == "week"@ || name == "wk"@ || name == "wks"@ || name
        == "w"@ {
        604_800 * NANOS_PER_SECOND
    } else if name == "months"@ || name == "month"@ || name == "M"@ {
        2_630_016 * NANOS_PER_SECOND
    } else if name == "years"@ || name == "year"@ || name == "yr"@ || name == "yrs"@ || name
        == "y"@ {
        31_557_600 * NANOS_PER_SECOND
    } else {
        0
    }
}

/// What the parts of a duration come to.
#[derive(Debug, Clone, Copy, PartialEq, Eq, Structural)]
pub enum Sum {
    /// So many nanoseconds.
    At(u128),
    /// The text is no duration, or one that cannot be counted.
    Refused,
    /// The whole seconds are the most a `u64` holds, and what is smaller came to
    /// exactly one second more.
    Overrun,
}

/// What a part of a duration, so many units over a divisor, brings the sum to.
/// A `fine` part is counted in nanoseconds, any other in seconds.
pub open spec fn with_part(nanos: int, count: int, divisor: int, unit: int, fine: bool) -> Sum {
    let product = count * (if fine {
        unit
    } else {
        unit / NANOS_PER_SECOND as int
    });
    let amount = product / divisor;
    let below = nanos % NANOS_PER_SECOND as int;
    let total = nanos + (if fine {
        amount
    } else {
        amount * NANOS_PER_SECOND
    });
    if product > u64::MAX || product % divisor != 0 {
        Sum::Refused
    } else if fine && below + amount > u64::MAX {
        Sum::Refused
    } else if fine && below + amount == NANOS_PER_SECOND && total == TOO_LONG {
        Sum::Overrun
    } else if total >= TOO_LONG {
        Sum::Refused
    } else {
        Sum::At(total as u128)
    }
}

/// Where in a duration its reader stands.
#[derive(Debug, Clone, Copy, PartialEq, Eq, Structural)]
pub enum Stage {
    /// Before a number.
    Start,
    /// In a number.
    Number,
    /// In the fraction after a number.
    Fraction,
    /// In the name of a unit.
    Unit,
}

/// What the start of a duration has been read as.
#[derive(Debug, Clone, Copy, PartialEq, Eq, Structural)]
pub struct Reading {
    pub stage: Stage,
    /// The number that waits for its unit.
    pub number: u64,
    /// The digits of the fraction after it.
    pub top: u64,
    /// What they are to be divided by; 1 where there is no fraction.
    pub bottom: u64,
    /// Where the name of its unit begins.
    pub from: usize,
    /// What stands before that number comes to.
    pub sum: Sum,
}

/// The sum once the number has its unit: first its whole part counts, then its
/// fraction.
pub open spec fn with_unit(r: Reading, name: Seq<char>) -> Sum {
    let unit = unit_nanos(name);
    match r.sum {
        Sum::At(nanos) => if unit == 0 {
            Sum::Refused
        } else {
            match with_part(nanos as int, r.number as int, 1, unit, unit < NANOS_PER_SECOND) {
                Sum::At(whole) => if r.bottom == 1 {
                    Sum::At(whole)
                } else if unit == 1 {
                    Sum::Refused
                } else {
                    with_part(
                        whole as int,
                        r.top as int,
                        r.bottom as int,
                        unit,
                        unit <= 60 * NANOS_PER_SECOND,
                    )
                },
                ended => ended,
            }
        },
        ended => ended,
    }
}

/// Whether a unit's name may hold the character.
pub open spec fn is_unit_letter(c: char) -> bool {
    'a' <= c <= 'z' || 'A' <= c <= 'Z' || c == '\u{b5}'
}

/// A reading that cannot go on.
pub open spec fn refused(r: Reading) -> Reading {
    Reading { sum: Sum::Refused, ..r }
}

/// A reading one digit on.
pub open spec fn with_digit(r: Reading, digit: int) -> Reading {
    match r.stage {
        Stage::Start | Stage::Unit => Reading {
            stage: Stage::Number,
            number: digit as u64,
            top: 0,
            bottom: 1,
            ..r
        },
        Stage::Number => if r.number * 10 + digit > u64::MAX {
            refused(r)
        } else {
            Reading { number: (r.number * 10 + digit) as u64, ..r }
        },
        Stage::Fraction => if r.bottom * 10 > u64::MAX || r.top * 10 + digit > u64::MAX {
            refused(r)
        } else {
            Reading { top: (r.top * 10 + digit) as u64, bottom: (r.bottom * 10) as u64, ..r }
        },
    }
}

/// A reading one character on. White space may stand anywhere but within the
/// name of a unit, which it ends, as does a digit.
pub open spec fn with_char(r: Reading, text: Seq<char>, at: int) -> Reading {
    let c = text[at];
    if !(r.sum is At) {
        r
    } else if r.stage == Stage::Unit && (is_white(c) || is_digit(c)) {
        let ended = Reading {
            stage: Stage::Start,
            sum: with_unit(r, text.subrange(r.from as int, at)),
            ..r
        };
        if is_digit(c) && ended.sum is At {
            with_digit(ended, c as int - '0' as int)
        } else {
            ended
        }
    } else if is_white(c) {
        r
    } else if is_digit(c) {
        with_digit(r, c as int - '0' as int)
    } else if is_unit_letter(c) && r.stage == Stage::Unit {
        r
    } else if is_unit_letter(c) && (r.stage == Stage::Number || (r.stage == Stage::Fraction
        && r.bottom > 1)) {
        Reading { stage: Stage::Unit, from: at as usize, ..r }
    } else if c == '.' && r.stage == Stage::Number {
        Reading { stage: Stage::Fraction, ..r }
    } else {
        refused(r)
    }
}

/// What the first characters of a text have been read as.
pub open spec fn reading(text: Seq<char>, upto: int) -> Reading
    decreases upto,
{
    if upto <= 0 {
        Reading { stage: Stage::Start, number: 0, top: 0, bottom: 1, from: 0, sum: Sum::At(0) }
    } else {
        with_char(reading(text, upto - 1), text, upto - 1)
    }
}

/// Whether the sum overruns, at the end of the text or before it.
pub open spec fn overruns(text: Seq<char>) -> bool {
    let r = reading(text, text.len() as int);
    if r.stage == Stage::Unit {
        with_unit(r, text.skip(r.from as int)) == Sum::Overrun
    } else {
        r.sum == Sum::Overrun
    }
}

/// What `humantime::parse_duration` makes of a text: the duration in
/// nanoseconds, or what its error says.
pub uninterp spec fn human_duration(text: Seq<char>) -> Result<u128, Seq<char>>;

/// `humantime::parse_duration`: what it returns is a function of the text
/// alone. It adds up the parts of a duration in turn, and panics where the whole
/// seconds so far are the most a `u64` holds and what is smaller than a second
/// comes to exactly one second more, which is left out.
#[verifier::external_body]
pub(crate) fn read_duration(text: &str) -> (r: Result<u128, String>)
    requires
        !overruns(text@),
    ensures
        match r {
            Ok(nanos) => human_duration(text@) == Ok::<u128, Seq<char>>(nanos),
            Err(why) => human_duration(text@) == Err::<u128, Seq<char>>(why@),
        },
{
    match humantime::parse_duration(text) {
        Ok(duration) => Ok(duration.as_nanos()),
        Err(err) => Err(err.to_string()),
    }
}

/// The nanoseconds of a unit by its name.
fn nanos_of_unit(name: &str) -> (r: u128)
    ensures
        r == unit_nanos(name@),
        r <= 31_557_600 * NANOS_PER_SECOND,
{
    if same(name, "nanos") || same(name, "nsec") || same(name, "ns") {
        1
    } else if same(name, "usec") || same(name, "us") || same(name, "\u{b5}s") {
        1_000
    } else if same(name, "millis") || same(name, "msec") || same(name, "ms") {
        1_000_000
    } else if same(name, "seconds") || same(name, "second") || same(name, "secs") || same(
        name,
        "sec",
    ) || same(name, "s") {
        NANOS_PER_SECOND
    } else if same(name, "minutes") || same(name, "minute") || same(name, "min") || same(
        name,
        "mins",
    ) || same(name, "m") {
        60 * NANOS_PER_SECOND
    } else if same(name, "hours") || same(name, "hour") || same(name, "hr") || same(name, "hrs")
        || same(name, "h") {
        3_600 * NANOS_PER_SECOND
    } else if same(name, "days") || same(name, "day") || same(name, "d") {
        86_400 * NANOS_PER_SECOND
    } else if same(name, "weeks") || same(name, "week") || same(name, "wk") || same(name, "wks")
        || same(name, "w") {
        604_800 * NANOS_PER_SECOND
    } else if same(name, "months") || same(name, "month") || same(name, "M") {
        2_630_016 * NANOS_PER_SECOND
    } else if same(name, "years") || same(name, "year") || same(name, "yr") || same(name, "yrs")
        || same(name, "y") {
        31_557_600 * NANOS_PER_SECOND
    } else {
        0
    }
}

/// Adds a part of a duration.
fn add_part(nanos: u128, count: u64, divisor: u64, unit: u128, fine: bool) -> (r: Sum)
    requires
        nanos < TOO_LONG,
        divisor > 0,
        fine ==> unit <= 60 * NANOS_PER_SECOND,
        unit <= 31_557_600 * NANOS_PER_SECOND,
    ensures
        r == with_part(nanos as int, count as int, divisor as int, unit as int, fine),
        r matches Sum::At(total) ==> total < TOO_LONG,
{
    let scale: u128 = if fine {
        unit
    } else {
        unit / NANOS_PER_SECOND
    };
    assert(0 <= count * scale <= 0xffff_ffff_ffff_ffff * 60_000_000_000) by (nonlinear_arith)
        requires
            0 <= count <= 0xffff_ffff_ffff_ffff,
            0 <= scale <= 60_000_000_000,
    ;
    let product: u128 = count as u128 * scale;
    if product > u64::MAX as u128 || product % (divisor as u128) != 0 {
        return Sum::Refused;
    }
    let amount: u128 = product / (divisor as u128);
    assert(amount <= product) by (nonlinear_arith)
        requires
            amount == product / (divisor as u128),
            divisor > 0,
    ;
    let below: u128 = nanos % NANOS_PER_SECOND;
    if fine && below + amount > u64::MAX as u128 {
        return Sum::Refused;
    }
    let total: u128 = if fine {
        nanos + amount
    } else {
        nanos + amount * NANOS_PER_SECOND
    };
    if fine && below + amount == NANOS_PER_SECOND && total == TOO_LONG {
        Sum::Overrun
    } else if total >= TOO_LONG {
        Sum::Refused
    } else {
        Sum::At(total)
    }
}

impl Reading {
    /// What holds of a reading at each place of a text.
    pub open spec fn wf(self, upto: int) -> bool {
        &&& self.bottom > 0
        &&& self.from <= upto
        &&& self.sum matches Sum::At(nanos) ==> nanos < TOO_LONG
    }

    /// Adds the number, now that its unit is known.
    fn add_unit(&self, name: &str) -> (r: Sum)
        requires
            self.bottom > 0,
            self.sum matches Sum::At(nanos) ==> nanos < TOO_LONG,
        ensures
            r == with_unit(*self, name@),
            r matches Sum::At(nanos) ==> nanos < TOO_LONG,
    {
        let nanos: u128 = match self.sum {
            Sum::At(nanos) => nanos,
            ended => return ended,
        };
        let unit: u128 = nanos_of_unit(name);
        if unit == 0 {
            return Sum::Refused;
        }
        match add_part(nanos, self.number, 1, unit, unit < NANOS_PER_SECOND) {
            Sum::At(whole) => {
                if self.bottom == 1 {
                    Sum::At(whole)
                } else if unit == 1 {
                    Sum::Refused
                } else {
                    add_part(
                        whole,
                        self.top,
                        self.bottom,
                        unit,
                        unit <= 60 * NANOS_PER_SECOND,
                    )
                }
            },
            ended => ended,
        }
    }

    /// Reads one digit more.
    fn digit(self, digit: u64) -> (r: Reading)
        requires
            digit < 10,
            self.bottom > 0,
        ensures
            r == with_digit(self, digit as int),
            r.bottom > 0,
            r.from == self.from,
            r.sum == self.sum || r.sum == Sum::Refused,
    {
        match self.stage {
            Stage::Start | Stage::Unit => Reading {
                stage: Stage::Number,
                number: digit,
                top: 0,
                bottom: 1,
                ..self
            },
            Stage::Number => {
                let now: u128 = self.number as u128 * 10 + digit as u128;
                if now > u64::MAX as u128 {
                    Reading { sum: Sum::Refused, ..self }
                } else {
                    Reading { number: now as u64, ..self }
                }
            },
            Stage::Fraction => {
                let bottom: u128 = self.bottom as u128 * 10;
                let top: u128 = self.top as u128 * 10 + digit as u128;
                if bottom > u64::MAX as u128 || top > u64::MAX as u128 {
                    Reading { sum: Sum::Refused, ..self }
                } else {
                    Reading { top: top as u64, bottom: bottom as u64, ..self }
                }
            },
        }
    }

    /// Reads one character more.
    fn next(self, cs: &Vec<char>, at: usize) -> (r: Reading)
        requires
            self.wf(at as int),
            at < cs@.len(),
        ensures
            r == with_char(self, cs@, at as int),
            r.wf(at + 1),
    {
        let c = cs[at];
        let digit = '0' <= c && c <= '9';
        let letter = ('a' <= c && c <= 'z') || ('A' <= c && c <= 'Z') || c == '\u{b5}';
        match self.sum {
            Sum::At(_) => {},
            _ => return self,
        }
        let value: u64 = if digit {
            (c as u32 - '0' as u32) as u64
        } else {
            0
        };
        if self.stage == Stage::Unit && (white(c) || digit) {
            let name = string_of(vstd::slice::slice_subrange(cs.as_slice(), self.from, at));
            let sum = self.add_unit(name.as_str());
            let ended = Reading { stage: Stage::Start, sum, ..self };
            let more = match sum {
                Sum::At(_) => digit,
                _ => false,
            };
            if more {
                ended.digit(value)
            } else {
                ended
            }
        } else if white(c) {
            self
        } else if digit {
            self.digit(value)
        } else if letter && self.stage == Stage::Unit {
            self
        } else if letter && (self.stage == Stage::Number || (self.stage == Stage::Fraction
            && self.bottom > 1)) {
            Reading { stage: Stage::Unit, from: at, ..self }
        } else if c == '.' && self.stage == Stage::Number {
            Reading { stage: Stage::Fraction, ..self }
        } else {
            Reading { sum: Sum::Refused, ..self }
        }
    }
}

/// Adds a duration up and says whether the sum overruns.
pub(crate) fn does_overrun(text: &str) -> (r: bool)
    ensures
        r == overruns(text@),
{
    let cs = chars_of(text);
    let mut r = Reading {
        stage: Stage::Start,
        number: 0,
        top: 0,
        bottom: 1,
        from: 0,
        sum: Sum::At(0),
    };
    let mut i: usize = 0;
    while i < cs.len()
        invariant
            i <= cs@.len(),
            r == reading(cs@, i as int),
            r.wf(i as int),
        decreases cs@.len() - i,
    {
        r = r.next(&cs, i);
        i += 1;
    }
    let sum = if r.stage == Stage::Unit {
        let name = string_of(vstd::slice::slice_subrange(cs.as_slice(), r.from, cs.len()));
        assert(name@ == cs@.skip(r.from as int));
        r.add_unit(name.as_str())
    } else {
        r.sum
    };
    sum == Sum::Overrun
}

// ---------------------------------------------------------------------------
// Which durations are left out
// ---------------------------------------------------------------------------

/// A sum overruns only where it comes to exactly the first second that a `u64`
/// cannot count, by a part of at most one second.
pub proof fn law_only_the_first_second_too_many_overruns(
    nanos: int,
    count: int,
    divisor: int,
    unit: int,
    fine: bool,
)
    requires
        0 <= nanos,
        0 <= count,
        0 < divisor,
        0 <= unit,
        with_part(nanos, count, divisor, unit, fine) == Sum::Overrun,
    ensures
        nanos + count * unit / divisor == 0x1_0000_0000_0000_0000 * 1_000_000_000,
        count * unit / divisor <= 1_000_000_000,
{
}

/// The largest unit there is.
spec fn largest() -> int {
    31_557_600 * NANOS_PER_SECOND
}

/// The most that so many characters can stand for.
spec fn reach(k: int) -> int
    decreases k,
{
    if k <= 0 {
        largest()
    } else {
        10 * reach(k - 1)
    }
}

proof fn lemma_reach_grows(k: int)
    requires
        0 <= k,
    ensures
        largest() <= reach(k),
    decreases k,
{
    if k > 0 {
        lemma_reach_grows(k - 1);
    }
}

/// What a reading may still come to: its sum, and its number with one unit more
/// for the fraction, all in the largest unit.
spec fn at_most(r: Reading) -> int {
    (match r.sum {
        Sum::At(nanos) => nanos as int,
        _ => 0,
    }) + (if r.stage == Stage::Start {
        0
    } else {
        (r.number + 1) * largest()
    })
}

proof fn lemma_part_is_small(nanos: int, count: int, divisor: int, unit: int, fine: bool, most: int)
    requires
        0 <= nanos,
        0 <= count <= most * divisor,
        0 < divisor,
        0 <= unit <= largest(),
        0 <= most,
        nanos + most * largest() < TOO_LONG,
        fine || unit % (NANOS_PER_SECOND as int) == 0,
    ensures
        with_part(nanos, count, divisor, unit, fine) != Sum::Overrun,
        with_part(nanos, count, divisor, unit, fine) matches Sum::At(total) ==> nanos <= total
            <= nanos + most * largest(),
{
    let scale = if fine {
        unit
    } else {
        unit / NANOS_PER_SECOND as int
    };
    let product = count * scale;
    let amount = product / divisor;
    assert(0 <= amount <= most * scale) by (nonlinear_arith)
        requires
            0 <= count <= most * divisor,
            0 < divisor,
            0 <= scale,
            product == count * scale,
            amount == product / divisor,
    {
        assert(product <= most * divisor * scale);
        assert(most * divisor * scale == (most * scale) * divisor);
        assert(product <= (most * scale) * divisor);
        assert(product / divisor <= most * scale);
    }
    let grown = if fine {
        amount
    } else {
        amount * NANOS_PER_SECOND
    };
    assert(0 <= grown <= most * unit) by (nonlinear_arith)
        requires
            0 <= amount <= most * scale,
            0 <= most,
            scale == (if fine {
                unit
            } else {
                unit / 1_000_000_000
            }),
            grown == (if fine {
                amount
            } else {
                amount * 1_000_000_000
            }),
            fine || unit % 1_000_000_000 == 0,
            0 <= unit,
    {
        if !fine {
            assert(scale * 1_000_000_000 == unit);
            assert(amount * 1_000_000_000 <= (most * scale) * 1_000_000_000);
            assert((most * scale) * 1_000_000_000 == most * (scale * 1_000_000_000));
        }
    }
    assert(most * unit <= most * largest()) by (nonlinear_arith)
        requires
            0 <= most,
            unit <= largest(),
    ;
}

spec fn is_tame(r: Reading) -> bool {
    &&& r.bottom > 0
    &&& r.top < r.bottom
    &&& r.sum != Sum::Overrun
}

proof fn lemma_unit_is_small(r: Reading, name: Seq<char>)
    requires
        is_tame(r),
        r.stage == Stage::Unit,
        at_most(r) < TOO_LONG,
    ensures
        with_unit(r, name) != Sum::Overrun,
        with_unit(r, name) matches Sum::At(total) ==> total <= at_most(r),
{
    let unit = unit_nanos(name);
    if let Sum::At(nanos) = r.sum {
        let most = r.number as int;
        assert(most * largest() + largest() == (most + 1) * largest()) by (nonlinear_arith);
        if unit != 0 {
            lemma_part_is_small(nanos as int, most, 1, unit, unit < NANOS_PER_SECOND, most);
            if let Sum::At(whole) = with_part(
                nanos as int,
                most,
                1,
                unit,
                unit < NANOS_PER_SECOND,
            ) {
                assert(1 * largest() == largest());
                lemma_part_is_small(
                    whole as int,
                    r.top as int,
                    r.bottom as int,
                    unit,
                    unit <= 60 * NANOS_PER_SECOND,
                    1,
                );
            }
        }
    }
}

proof fn lemma_reading_is_small(text: Seq<char>, upto: int)
    requires
        0 <= upto <= 11,
        upto <= text.len(),
    ensures
        is_tame(reading(text, upto)),
        at_most(reading(text, upto)) <= reach(upto),
        upto == 0 ==> at_most(reading(text, upto)) == 0,
    decreases upto,
{
    if upto > 0 {
        let r = reading(text, upto - 1);
        let c = text[upto - 1];
        lemma_reading_is_small(text, upto - 1);
        lemma_reach_grows(upto - 1);
        lemma_eleven(upto - 1);
        if upto - 1 > 0 {
            lemma_reach_grows(upto - 2);
        }
        let d = c as int - '0' as int;
        let name = text.subrange(r.from as int, upto - 1);
        if r.stage == Stage::Unit {
            lemma_unit_is_small(r, name);
        }
        let n = r.number as int;
        if is_digit(c) {
            assert((n * 10 + d + 1) * largest() <= 10 * ((n + 1) * largest())) by (nonlinear_arith)
                requires
                    d <= 9,
                    0 <= n,
                    largest() > 0,
            ;
            assert((d + 1) * largest() <= 10 * largest()) by (nonlinear_arith)
                requires
                    d <= 9,
                    largest() > 0,
            ;
        }
        assert((n + 1) * largest() >= largest()) by (nonlinear_arith)
            requires
                0 <= n,
                largest() > 0,
        ;
    }
}

proof fn lemma_eleven(k: int)
    requires
        0 <= k <= 11,
    ensures
        reach(k) < TOO_LONG,
{
    reveal_with_fuel(reach, 13);
}

/// A duration of at most eleven characters never overruns: every such text is
/// read.
pub proof fn law_a_short_duration_is_read(text: Seq<char>)
    requires
        text.len() <= 11,
    ensures
        !overruns(text),
{
    let n = text.len() as int;
    lemma_reading_is_small(text, n);
    lemma_eleven(n);
    let r = reading(text, n);
    if r.stage == Stage::Unit {
        lemma_unit_is_small(r, text.skip(r.from as int));
    }
}

/// The first second too many, reached by something smaller than a second, is
/// always told.
pub proof fn law_the_first_second_too_many_is_told(nanos: int, count: int, unit: int)
    requires
        0 <= nanos,
        0 < count * unit <= 1_000_000_000,
        nanos + count * unit == 0x1_0000_0000_0000_0000 * 1_000_000_000,
    ensures
        with_part(nanos, count, 1, unit, true) == Sum::Overrun,
{
}

} // verus!

//! Spans of time and how they are written.

use vstd::arithmetic::power::{lemma_pow_positive, pow};
use vstd::prelude::*;
use vstd::string::*;

use crate::text::{
    all_digits, chars_of, digits_value, is_digit, is_white_space, str_eq, white_space,
};

verus! {

/// A span of time.
#[derive(Debug, Clone, Copy, PartialEq, Eq)]
pub struct TimeSpan {
    pub nanos: u128,
}

impl TimeSpan {
    pub fn from_secs(secs: u64) -> (span: TimeSpan)
        ensures
            span.nanos == secs * 1_000_000_000,
    {
        TimeSpan { nanos: secs as u128 * 1_000_000_000 }
    }

    /// The time-out for a poll, in milliseconds: the whole milliseconds of the
    /// span, or the longest time-out there is.
    pub fn poll_timeout(&self) -> (millis: i32)
        ensures
            millis == if self.nanos / 1_000_000 <= i32::MAX {
                self.nanos / 1_000_000
            } else {
                i32::MAX as u128
            },
    {
        let millis: u128 = self.nanos / 1_000_000;
        if millis <= 2147483647 {
            millis as i32
        } else {
            2147483647
        }
    }
}

/// A unit of time: so many seconds, or so many nanoseconds.
pub struct Unit {
    pub size: nat,
    pub in_seconds: bool,
}

/// The unit of a name.
pub open spec fn unit_of(unit: Seq<char>) -> Option<Unit> {
    if unit == "nanos"@ || unit == "nsec"@ || unit == "ns"@ {
        Some(Unit { size: 1, in_seconds: false })
    } else if unit == "usec"@ || unit == "us"@ || unit == "\u{b5}s"@ {
        Some(Unit { size: 1_000, in_seconds: false })
    } else if unit == "millis"@ || unit == "msec"@ || unit == "ms"@ {
        Some(Unit { size: 1_000_000, in_seconds: false })
    } else if unit == "seconds"@ || unit == "second"@ || unit == "secs"@ || unit == "sec"@
        || unit == "s"@ {
        Some(Unit { size: 1, in_seconds: true })
    } else if unit == "minutes"@ || unit == "minute"@ || unit == "min"@ || unit == "mins"@
        || unit == "m"@ {
        Some(Unit { size: 60, in_seconds: true })
    } else if unit == "hours"@ || unit == "hour"@ || unit == "hr"@ || unit == "hrs"@ || unit
        == "h"@ {
        Some(Unit { size: 3_600, in_seconds: true })
    } else if unit == "days"@ || unit == "day"@ || unit == "d"@ {
        Some(Unit { size: 86_400, in_seconds: true })
    } else if unit == "weeks"@ || unit == "week"@ || unit == "wk"@ || unit == "wks"@ || unit
        == "w"@ {
        Some(Unit { size: 604_800, in_seconds: true })
    } else if unit == "months"@ || unit == "month"@ || unit == "M"@ {
        Some(Unit { size: 2_630_016, in_seconds: true })
    } else if unit == "years"@ || unit == "year"@ || unit == "yr"@ || unit == "yrs"@ || unit
        == "y"@ {
        Some(Unit { size: 31_557_600, in_seconds: true })
    } else {
        None
    }
}

/// The nanoseconds of one second more than a 64-bit number of seconds can hold.
pub const FULL: u128 = 18_446_744_073_709_551_616_000_000_000;

/// The digits behind a point: what they stand for, and the power of ten that
/// goes with them.
pub struct Fraction {
    pub numerator: nat,
    pub denominator: nat,
}

/// How far the text of a duration has been read.
#[verifier::ext_equal]
pub struct Tally {
    /// The nanoseconds of the amounts so far.
    pub total: nat,
    /// The whole number of the amount at hand, if it has begun.
    pub number: Option<nat>,
    /// The fraction of the amount at hand, if it has a point.
    pub fraction: Option<Fraction>,
    /// The unit of the amount at hand.
    pub unit: Seq<char>,
    /// Whether the text is known to be no duration, so that the rest does not
    /// matter.
    pub stopped: bool,
    /// Whether a part of an amount filled up the second beyond the last that a
    /// 64-bit number of seconds can hold.
    pub full: bool,
}

/// A text of which nothing has been read.
pub open spec fn unread() -> Tally {
    Tally {
        total: 0,
        number: None,
        fraction: None,
        unit: Seq::empty(),
        stopped: false,
        full: false,
    }
}

pub open spec fn stopped(t: Tally) -> Tally {
    Tally { stopped: true, ..t }
}

/// A part of an amount, added up; `fills` if it is counted in nanoseconds, which
/// together with those of the last second must fit 64 bits. A total beyond what
/// seconds can hold is no duration. Where a part of at most a second that fills
/// brings the total just there, it has filled up that second.
pub open spec fn with_part(t: Tally, nanos: nat, fills: bool) -> Tally {
    if fills && t.total % 1_000_000_000 + nanos > u64::MAX {
        stopped(t)
    } else if t.total + nanos < FULL {
        Tally { total: t.total + nanos, ..t }
    } else {
        Tally {
            stopped: true,
            full: t.full || (fills && t.total + nanos == FULL && nanos <= 1_000_000_000),
            ..t
        }
    }
}

/// The fraction of an amount, added up. Up to minutes it must come to whole
/// nanoseconds, beyond that to whole seconds, without a product that exceeds 64
/// bits; a nanosecond has no fraction.
pub open spec fn with_fraction(t: Tally, fraction: Fraction, unit: Unit) -> Tally {
    let fills = !unit.in_seconds || unit.size <= 60;
    let size = if unit.in_seconds && fills {
        unit.size * 1_000_000_000
    } else {
        unit.size
    };
    let product = fraction.numerator * size;
    if (!unit.in_seconds && unit.size == 1) || product > u64::MAX || product % fraction.denominator
        != 0 {
        stopped(t)
    } else if fills {
        with_part(t, product / fraction.denominator, true)
    } else {
        with_part(t, product / fraction.denominator * 1_000_000_000, false)
    }
}

/// An amount, added up: first the whole number, then the fraction. A number that
/// exceeds 64 bits in its unit is no duration, nor is one of an unknown unit.
pub open spec fn with_amount(t: Tally) -> Tally {
    match unit_of(t.unit) {
        None => stopped(t),
        Some(unit) => {
            let whole = t.number->0 * unit.size;
            if t.number is None || whole > u64::MAX {
                stopped(t)
            } else {
                let nanos = if unit.in_seconds {
                    whole * 1_000_000_000
                } else {
                    whole
                };
                let next = with_part(t, nanos, !unit.in_seconds);
                let added = if next.stopped || t.fraction is None {
                    next
                } else {
                    with_fraction(next, t.fraction->0, unit)
                };
                Tally { number: None, fraction: None, unit: Seq::empty(), ..added }
            }
        },
    }
}

/// An amount, added up if its unit has begun.
pub open spec fn settled(t: Tally) -> Tally {
    if t.stopped || t.unit.len() == 0 {
        t
    } else {
        with_amount(t)
    }
}

/// One more digit of a number or of a fraction. What does not fit 64 bits is no
/// part of a duration.
pub open spec fn with_digit(t: Tally, digit: nat) -> Tally {
    if t.stopped {
        t
    } else {
        match t.fraction {
            Some(f) => if f.denominator * 10 > u64::MAX {
                stopped(t)
            } else {
                Tally {
                    fraction: Some(
                        Fraction {
                            numerator: f.numerator * 10 + digit,
                            denominator: f.denominator * 10,
                        },
                    ),
                    ..t
                }
            },
            None => {
                let number = match t.number {
                    Some(n) => n * 10 + digit,
                    None => digit,
                };
                if number > u64::MAX {
                    stopped(t)
                } else {
                    Tally { number: Some(number), ..t }
                }
            },
        }
    }
}

/// One more character. White space ends a unit, but not a number; a digit
/// behind a unit begins a new amount. A point or a unit must have a number
/// before it, and a unit must have a digit behind the point before it.
pub open spec fn with_char(t: Tally, c: char) -> Tally {
    if t.stopped {
        t
    } else if is_digit(c) {
        with_digit(settled(t), (c as nat - '0' as nat) as nat)
    } else if is_white_space(c) {
        settled(t)
    } else if t.number is None {
        stopped(t)
    } else if c == '.' && t.unit.len() == 0 {
        if t.fraction is Some {
            stopped(t)
        } else {
            Tally { fraction: Some(Fraction { numerator: 0, denominator: 1 }), ..t }
        }
    } else if t.fraction matches Some(f) && f.denominator == 1 {
        stopped(t)
    } else {
        Tally { unit: t.unit.push(c), ..t }
    }
}

/// What has been read at the end of a text.
pub open spec fn tally(text: Seq<char>) -> Tally
    decreases text.len(),
{
    if text.len() == 0 {
        unread()
    } else {
        with_char(tally(text.drop_last()), text.last())
    }
}

/// Whether the text of a duration keeps away from the one total that can be
/// neither read nor refused: its amounts never come to one second more than
/// 64-bit seconds can hold, by filling up that second.
pub open spec fn is_readable_span(text: Seq<char>) -> bool {
    !settled(tally(text)).full
}

/// The size of a unit, and whether that is in seconds.
fn size_of_unit(unit: &str) -> (found: Option<(u64, bool)>)
    ensures
        match found {
            Some((size, in_seconds)) => unit_of(unit@) == Some(
                (Unit { size: size as nat, in_seconds }),
            ) && 1 <= size <= 31_557_600,
            None => unit_of(unit@) is None,
        },
{
    if str_eq(unit, "nanos") || str_eq(unit, "nsec") || str_eq(unit, "ns") {
        Some((1, false))
    } else if str_eq(unit, "usec") || str_eq(unit, "us") || str_eq(unit, "\u{b5}s") {
        Some((1_000, false))
    } else if str_eq(unit, "millis") || str_eq(unit, "msec") || str_eq(unit, "ms") {
        Some((1_000_000, false))
    } else if str_eq(unit, "seconds") || str_eq(unit, "second") || str_eq(unit, "secs")
        || str_eq(unit, "sec") || str_eq(unit, "s") {
        Some((1, true))
    } else if str_eq(unit, "minutes") || str_eq(unit, "minute") || str_eq(unit, "min")
        || str_eq(unit, "mins") || str_eq(unit, "m") {
        Some((60, true))
    } else if str_eq(unit, "hours") || str_eq(unit, "hour") || str_eq(unit, "hr")
        || str_eq(unit, "hrs") || str_eq(unit, "h") {
        Some((3_600, true))
    } else if str_eq(unit, "days") || str_eq(unit, "day") || str_eq(unit, "d") {
        Some((86_400, true))
    } else if str_eq(unit, "weeks") || str_eq(unit, "week") || str_eq(unit, "wk")
        || str_eq(unit, "wks") || str_eq(unit, "w") {
        Some((604_800, true))
    } else if str_eq(unit, "months") || str_eq(unit, "month") || str_eq(unit, "M") {
        Some((2_630_016, true))
    } else if str_eq(unit, "years") || str_eq(unit, "year") || str_eq(unit, "yr")
        || str_eq(unit, "yrs") || str_eq(unit, "y") {
        Some((31_557_600, true))
    } else {
        None
    }
}

/// A [`Tally`] that is being made.
struct Count {
    total: u128,
    number: Option<u64>,
    fraction: Option<(u64, u64)>,
    unit: String,
    stopped: bool,
    full: bool,
}

impl View for Count {
    type V = Tally;

    closed spec fn view(&self) -> Tally {
        Tally {
            total: self.total as nat,
            number: match self.number {
                Some(n) => Some(n as nat),
                None => None,
            },
            fraction: match self.fraction {
                Some((n, d)) => Some(Fraction { numerator: n as nat, denominator: d as nat }),
                None => None,
            },
            unit: self.unit@,
            stopped: self.stopped,
            full: self.full,
        }
    }
}

impl Count {
    /// The total is within bounds, and a fraction is less than one.
    spec fn fits(self) -> bool {
        &&& self.total < FULL
        &&& self.fraction matches Some((n, d)) ==> n < d
    }

    fn add_part(&mut self, nanos: u128, fills: bool)
        requires
            old(self).fits(),
            nanos <= u64::MAX * 1_000_000_000,
        ensures
            final(self).fits(),
            final(self)@ == with_part(old(self)@, nanos as nat, fills),
    {
        let total: u128 = self.total + nanos;
        if fills && self.total % 1_000_000_000 + nanos > u64::MAX as u128 {
            self.stopped = true;
        } else if total < FULL {
            self.total = total;
        } else {
            self.stopped = true;
            if fills && total == FULL && nanos <= 1_000_000_000 {
                self.full = true;
            }
        }
        assert(self@ =~= with_part(old(self)@, nanos as nat, fills));
    }

    fn add_fraction(&mut self, numerator: u64, denominator: u64, size: u64, in_seconds: bool)
        requires
            old(self).fits(),
            numerator < denominator,
            1 <= size <= 31_557_600,
        ensures
            final(self).fits(),
            final(self)@ == with_fraction(
                old(self)@,
                (Fraction { numerator: numerator as nat, denominator: denominator as nat }),
                (Unit { size: size as nat, in_seconds }),
            ),
    {
        let fills = !in_seconds || size <= 60;
        let scaled: u64 = if in_seconds && fills {
            size * 1_000_000_000
        } else {
            size
        };
        assert(numerator * scaled <= u64::MAX * 60_000_000_000) by (nonlinear_arith)
            requires
                0 <= numerator <= u64::MAX,
                0 <= scaled <= 60_000_000_000,
        ;
        let product: u128 = numerator as u128 * scaled as u128;
        let divisor: u128 = denominator as u128;
        if (!in_seconds && size == 1) || product > u64::MAX as u128 || product % divisor != 0 {
            self.stopped = true;
            return;
        }
        let quotient: u128 = product / divisor;
        assert(quotient <= product) by (nonlinear_arith)
            requires
                quotient == product / divisor,
                divisor >= 1,
        ;
        if fills {
            self.add_part(quotient, true);
        } else {
            self.add_part(quotient * 1_000_000_000, false);
        }
    }

    fn settle(&mut self)
        requires
            old(self).fits(),
        ensures
            final(self).fits(),
            final(self)@ == settled(old(self)@),
    {
        if self.stopped || self.unit.as_str().is_empty() {
            return;
        }
        let (size, in_seconds) = match size_of_unit(self.unit.as_str()) {
            Some(unit) => unit,
            None => {
                self.stopped = true;
                return;
            },
        };
        let number: u64 = match self.number {
            Some(number) => number,
            None => {
                self.stopped = true;
                return;
            },
        };
        let ghost before = self@;
        assert(number * size <= u64::MAX * 31_557_600) by (nonlinear_arith)
            requires
                0 <= number <= u64::MAX,
                0 <= size <= 31_557_600,
        ;
        let whole: u128 = number as u128 * size as u128;
        if whole > u64::MAX as u128 {
            self.stopped = true;
            return;
        }
        let nanos: u128 = if in_seconds {
            whole * 1_000_000_000
        } else {
            whole
        };
        self.add_part(nanos, !in_seconds);
        if !self.stopped {
            if let Some((numerator, denominator)) = self.fraction {
                self.add_fraction(numerator, denominator, size, in_seconds);
            }
        }
        self.number = None;
        self.fraction = None;
        self.unit = String::new();
        assert(self@ =~= with_amount(before));
    }

    fn read_digit(&mut self, digit: u64)
        requires
            old(self).fits(),
            digit < 10,
        ensures
            final(self).fits(),
            final(self)@ == with_digit(old(self)@, digit as nat),
    {
        if self.stopped {
            return;
        }
        match self.fraction {
            Some((numerator, denominator)) => {
                let larger: u128 = denominator as u128 * 10;
                if larger > u64::MAX as u128 {
                    self.stopped = true;
                } else {
                    self.fraction = Some((numerator * 10 + digit, denominator * 10));
                }
            },
            None => {
                let number: u128 = match self.number {
                    Some(number) => number as u128 * 10 + digit as u128,
                    None => digit as u128,
                };
                if number > u64::MAX as u128 {
                    self.stopped = true;
                } else {
                    self.number = Some(number as u64);
                }
            },
        }
        assert(self@ =~= with_digit(old(self)@, digit as nat));
    }

    fn read_char(&mut self, c: char)
        requires
            old(self).fits(),
        ensures
            final(self).fits(),
            final(self)@ == with_char(old(self)@, c),
    {
        if self.stopped {
            return;
        }
        if '0' <= c && c <= '9' {
            self.settle();
            self.read_digit((c as u32 - 48) as u64);
        } else if white_space(c) {
            self.settle();
        } else if self.number.is_none() {
            self.stopped = true;
        } else if c == '.' && self.unit.as_str().is_empty() {
            if self.fraction.is_some() {
                self.stopped = true;
            } else {
                self.fraction = Some((0, 1));
            }
        } else {
            match self.fraction {
                Some((_, 1)) => {
                    self.stopped = true;
                },
                _ => {
                    self.unit.push(c);
                },
            }
        }
        assert(self@ =~= with_char(old(self)@, c));
    }
}

/// Whether the text of a duration keeps away from the one total that can be
/// neither read nor refused.
pub fn readable_span(text: &str) -> (b: bool)
    ensures
        b == is_readable_span(text@),
{
    let chars = chars_of(text);
    let mut count = Count {
        total: 0,
        number: None,
        fraction: None,
        unit: String::new(),
        stopped: false,
        full: false,
    };
    let mut i: usize = 0;
    assert(count@ =~= tally(text@.take(0)));
    while i < chars.len()
        invariant
            chars@ == text@,
            i <= chars.len(),
            count.fits(),
            count@ == tally(text@.take(i as int)),
        decreases chars@.len() - i,
    {
        assert(text@.take(i + 1).drop_last() =~= text@.take(i as int));
        count.read_char(chars[i]);
        i = i + 1;
    }
    assert(text@.take(text@.len() as int) =~= text@);
    count.settle();
    !count.full
}

/// The nanoseconds that the text of a duration stands for, or the message that
/// says what is wrong with it.
pub uninterp spec fn human_duration(text: Seq<char>) -> Result<u128, Seq<char>>;

/// `humantime::parse_duration`: the duration, and the message of the error,
/// depend on the text alone.
///
/// `parse_duration` adds up amount by amount, first the whole number and then
/// the fraction. It panics where the nanoseconds of a part complete exactly one
/// second and the seconds are already the greatest 64-bit number; every other
/// total beyond that number is an error. A text for which [`is_readable_span`]
/// holds never comes to that total in this way.
#[verifier::external_body]
pub(crate) fn parse_human(text: &str) -> (r: Result<u128, String>)
    requires
        is_readable_span(text@),
    ensures
        match r {
            Ok(nanos) => human_duration(text@) == Ok::<u128, Seq<char>>(nanos),
            Err(message) => human_duration(text@) == Err::<u128, Seq<char>>(message@),
        },
{
    humantime::parse_duration(text).map(|d| d.as_nanos()).map_err(|e| e.to_string())
}

/// Whether no amount has begun that is not added up yet, and nothing is wrong.
pub open spec fn is_between_amounts(t: Tally) -> bool {
    !t.stopped && t.number is None && t.fraction is None && t.unit.len() == 0
}

/// How many nanoseconds a unit has.
pub open spec fn nanos_of(unit: Unit) -> nat {
    if unit.in_seconds {
        unit.size * 1_000_000_000
    } else {
        unit.size
    }
}

/// Whether a text can be the name of a unit: it is not empty and holds neither
/// digits nor white space nor points.
pub open spec fn is_word(name: Seq<char>) -> bool {
    name.len() > 0 && forall|i: int|
        0 <= i < name.len() ==> !is_digit(#[trigger] name[i]) && !is_white_space(name[i]) && name[i]
            != '.'
}

proof fn lemma_full_stops(text: Seq<char>)
    ensures
        tally(text).full ==> tally(text).stopped,
        settled(tally(text)).full ==> settled(tally(text)).stopped,
    decreases text.len(),
{
    if text.len() > 0 {
        lemma_full_stops(text.drop_last());
    }
}

proof fn lemma_whole_number(before: Seq<char>, digits: Seq<char>)
    requires
        is_between_amounts(settled(tally(before))),
        all_digits(digits),
        digits_value(digits) <= u64::MAX,
    ensures
        tally(before + digits) == (Tally {
            number: Some(digits_value(digits)),
            ..settled(tally(before))
        }),
    decreases digits.len(),
{
    let shorter = digits.drop_last();
    assert((before + digits).drop_last() =~= before + shorter);
    assert((before + digits).last() == digits.last());
    assert(is_digit(digits[digits.len() - 1]));
    if shorter.len() == 0 {
        assert(before + shorter =~= before);
        assert(digits_value(shorter) == 0);
    } else {
        assert forall|i: int| 0 <= i < shorter.len() implies is_digit(#[trigger] shorter[i]) by {
            assert(shorter[i] == digits[i]);
        }
        lemma_whole_number(before, shorter);
    }
    assert(tally(before + digits) =~= Tally {
        number: Some(digits_value(digits)),
        ..settled(tally(before))
    });
}

proof fn lemma_unit_name(before: Seq<char>, name: Seq<char>)
    requires
        !tally(before).stopped,
        tally(before).number is Some,
        tally(before).unit.len() == 0,
        tally(before).fraction matches Some(f) ==> f.denominator > 1,
        is_word(name),
    ensures
        tally(before + name) == (Tally { unit: name, ..tally(before) }),
    decreases name.len(),
{
    let shorter = name.drop_last();
    assert((before + name).drop_last() =~= before + shorter);
    assert(!is_digit(name[name.len() - 1]) && !is_white_space(name[name.len() - 1])
        && name[name.len() - 1] != '.');
    if shorter.len() == 0 {
        assert(before + shorter =~= before);
        assert(tally(before).unit =~= shorter);
    } else {
        assert forall|i: int| 0 <= i < shorter.len() implies !is_digit(#[trigger] shorter[i])
            && !is_white_space(shorter[i]) && shorter[i] != '.' by {
            assert(shorter[i] == name[i]);
        }
        lemma_unit_name(before, shorter);
    }
    assert(shorter.push(name.last()) =~= name);
    assert(tally(before + name) =~= Tally { unit: name, ..tally(before) });
}

/// A whole number of a unit adds so many of it to what came before, unless that
/// is too much: too large for 64 bits, or beyond what 64-bit seconds can hold.
/// Only nanoseconds, and no more of them than a second has, can fill up the
/// second behind the last.
pub proof fn lemma_whole_amounts_add_up(
    before: Seq<char>,
    digits: Seq<char>,
    name: Seq<char>,
    unit: Unit,
)
    requires
        is_between_amounts(settled(tally(before))),
        all_digits(digits),
        digits_value(digits) <= u64::MAX,
        is_word(name),
        unit_of(name) == Some(unit),
    ensures
        ({
            let total = settled(tally(before)).total;
            let after = settled(tally(before + digits + name));
            let value = digits_value(digits) * nanos_of(unit);
            let held = digits_value(digits) * unit.size <= u64::MAX && (unit.in_seconds || total
                % 1_000_000_000 + value <= u64::MAX);
            &&& is_between_amounts(after) <==> held && total + value < FULL
            &&& is_between_amounts(after) ==> after.total == total + value
            &&& is_between_amounts(after) || after.stopped
            &&& is_readable_span(before + digits + name) <==> !(held && !unit.in_seconds && total
                + value == FULL && value <= 1_000_000_000)
        }),
{
    lemma_whole_number(before, digits);
    lemma_unit_name(before + digits, name);
    lemma_full_stops(before);
    let n = digits_value(digits);
    let size = unit.size;
    assert(n * (size * 1_000_000_000) == n * size * 1_000_000_000) by (nonlinear_arith);
}

proof fn lemma_fraction_digits(before: Seq<char>, digits: Seq<char>)
    requires
        !tally(before).stopped,
        tally(before).unit.len() == 0,
        tally(before).fraction == Some((Fraction { numerator: 0, denominator: 1 })),
        forall|i: int| 0 <= i < digits.len() ==> is_digit(#[trigger] digits[i]),
        pow(10, digits.len()) <= u64::MAX,
    ensures
        tally(before + digits) == (Tally {
            fraction: Some(
                (Fraction {
                    numerator: digits_value(digits),
                    denominator: pow(10, digits.len()) as nat,
                }),
            ),
            ..tally(before)
        }),
        pow(10, digits.len()) >= 1,
        digits.len() > 0 ==> pow(10, digits.len()) >= 10,
    decreases digits.len(),
{
    reveal(pow);
    if digits.len() == 0 {
        assert(before + digits =~= before);
        assert(pow(10, 0) == 1);
    } else {
        let shorter = digits.drop_last();
        assert((before + digits).drop_last() =~= before + shorter);
        assert(is_digit(digits[digits.len() - 1]));
        assert(pow(10, digits.len()) == 10 * pow(10, shorter.len()));
        assert forall|i: int| 0 <= i < shorter.len() implies is_digit(#[trigger] shorter[i]) by {
            assert(shorter[i] == digits[i]);
        }
        lemma_pow_positive(10, shorter.len());
        lemma_fraction_digits(before, shorter);
    }
    assert(tally(before + digits) =~= Tally {
        fraction: Some(
            Fraction {
                numerator: digits_value(digits),
                denominator: pow(10, digits.len()) as nat,
            },
        ),
        ..tally(before)
    });
}

/// A number with a fraction adds exactly what it says: multiplied by the power of
/// ten that makes it whole, what is added is that whole number of the unit. An
/// amount that does not come out even is no duration.
pub proof fn lemma_broken_amounts_add_up(
    before: Seq<char>,
    digits: Seq<char>,
    behind_point: Seq<char>,
    name: Seq<char>,
    unit: Unit,
)
    requires
        is_between_amounts(settled(tally(before))),
        all_digits(digits),
        digits_value(digits) <= u64::MAX,
        all_digits(behind_point),
        pow(10, behind_point.len()) <= u64::MAX,
        is_word(name),
        unit_of(name) == Some(unit),
        unit.size > 0,
    ensures
        ({
            let total = settled(tally(before)).total;
            let after = settled(tally(before + digits + seq!['.'] + behind_point + name));
            let scale = pow(10, behind_point.len()) as nat;
            let scaled = digits_value(digits) * scale + digits_value(behind_point);
            &&& is_between_amounts(after) ==> (after.total - total) * scale == scaled * nanos_of(
                unit,
            )
            &&& is_between_amounts(after) || after.stopped
            &&& nanos_of(unit) == 1 ==> after.stopped
            &&& nanos_of(unit) > 1 && total + scaled * nanos_of(unit) <= u64::MAX && (digits_value(
                behind_point,
            ) * unit.size) % scale == 0 ==> is_between_amounts(after)
        }),
{
    let start = before + digits;
    let pointed = start + seq!['.'];
    lemma_whole_number(before, digits);
    assert(pointed.drop_last() =~= start);
    assert(pointed.last() == '.');
    lemma_fraction_digits(pointed, behind_point);
    lemma_unit_name(pointed + behind_point, name);
    let t = tally(pointed + behind_point + name);
    let total = t.total;
    let n = digits_value(digits);
    let f = digits_value(behind_point);
    let scale = pow(10, behind_point.len()) as nat;
    let after = settled(t);
    let each = nanos_of(unit);
    assert((n * scale + f) * each == n * scale * each + f * each) by (nonlinear_arith);
    if each > 1 && total + (n * scale + f) * each <= u64::MAX && (f * unit.size) % scale == 0 {
        lemma_small_fraction_counts(t, n, f, scale, unit);
    }
    if is_between_amounts(after) {
        let size = unit.size;
        let whole = n * size;
        let nanos = if unit.in_seconds {
            whole * 1_000_000_000
        } else {
            whole
        };
        let next = with_part(t, nanos, !unit.in_seconds);
        assert(!next.stopped);
        let fills = !unit.in_seconds || size <= 60;
        let fine = if unit.in_seconds && fills {
            size * 1_000_000_000
        } else {
            size
        };
        let product = f * fine;
        let quotient = product / scale;
        assert(product % scale == 0);
        assert(quotient * scale == product) by (nonlinear_arith)
            requires
                scale > 0,
                product % scale == 0,
                quotient == product / scale,
        ;
        let part = if fills {
            quotient
        } else {
            quotient * 1_000_000_000
        };
        assert(after.total == total + nanos + part);
        assert(part * scale == f * nanos_of(unit)) by {
            if !fills {
                assert(quotient * 1_000_000_000 * scale == quotient * scale * 1_000_000_000)
                    by (nonlinear_arith);
                assert(f * size * 1_000_000_000 == f * (size * 1_000_000_000))
                    by (nonlinear_arith);
            }
        }
        assert(nanos * scale == n * scale * nanos_of(unit)) by {
            if unit.in_seconds {
                assert(n * size * 1_000_000_000 * scale == n * scale * (size * 1_000_000_000))
                    by (nonlinear_arith);
            } else {
                assert(n * size * scale == n * scale * size) by (nonlinear_arith);
            }
        }
        assert((nanos + part) * scale == nanos * scale + part * scale) by (nonlinear_arith);
    }
}

proof fn lemma_small_fraction_counts(t: Tally, n: nat, f: nat, scale: nat, unit: Unit)
    requires
        !t.stopped,
        t.unit.len() > 0,
        unit_of(t.unit) == Some(unit),
        t.number == Some(n),
        t.fraction == Some((Fraction { numerator: f, denominator: scale })),
        scale >= 1,
        unit.size > 0,
        nanos_of(unit) > 1,
        t.total + (n * scale + f) * nanos_of(unit) <= u64::MAX,
        (f * unit.size) % scale == 0,
    ensures
        is_between_amounts(settled(t)),
{
    let size = unit.size;
    let each = nanos_of(unit);
    assert((n * scale + f) * each == n * scale * each + f * each) by (nonlinear_arith);
    assert(n * each <= n * scale * each) by (nonlinear_arith)
        requires
            scale >= 1,
            n >= 0,
            each >= 0,
    ;
    assert(n * size <= n * each && f * size <= f * each) by (nonlinear_arith)
        requires
            each >= size,
            n >= 0,
            f >= 0,
    ;
    assert(n * (size * 1_000_000_000) == n * size * 1_000_000_000) by (nonlinear_arith);
    assert(f * (size * 1_000_000_000) == f * size * 1_000_000_000) by (nonlinear_arith);
    let product = f * size;
    assert(product * 1_000_000_000 % scale == 0) by (nonlinear_arith)
        requires
            product % scale == 0,
            scale >= 1,
    {
        let q = product / scale;
        assert(product == scale * q);
        assert(product * 1_000_000_000 == scale * (q * 1_000_000_000));
        vstd::arithmetic::div_mod::lemma_mod_multiples_basic(
            (q * 1_000_000_000) as int,
            scale as int,
        );
    }
    assert(product / scale <= product) by (nonlinear_arith)
        requires
            scale >= 1,
            product >= 0,
    ;
    assert(product * 1_000_000_000 / scale <= product * 1_000_000_000) by (nonlinear_arith)
        requires
            scale >= 1,
            product >= 0,
    ;
}

/// White space between amounts changes nothing. An amount must begin with a
/// digit, and where a text is known to be no duration, the rest does not matter.
pub proof fn lemma_what_may_follow(text: Seq<char>, c: char, more: Seq<char>)
    ensures
        is_white_space(c) && !is_digit(c) ==> settled(tally(text.push(c))) == settled(tally(text)),
        is_between_amounts(tally(text)) && !is_digit(c) && !is_white_space(c) ==> tally(
            text.push(c),
        ).stopped,
        tally(text).stopped ==> tally(text + more) == tally(text),
    decreases more.len(),
{
    assert(text.push(c).drop_last() =~= text);
    if more.len() == 0 {
        assert(text + more =~= text);
    } else {
        lemma_what_may_follow(text, c, more.drop_last());
        assert((text + more).drop_last() =~= text + more.drop_last());
    }
}

/// A unit is as many of the next smaller one as everyday life has it; a year has
/// 365 days and a quarter, and twelve months are a year and less than an hour. A
/// unit goes by several names.
pub proof fn lemma_units()
    ensures
        unit_of("ns"@) is Some && nanos_of(unit_of("ns"@)->0) == 1,
        unit_of("us"@) is Some && nanos_of(unit_of("us"@)->0) == 1000 * nanos_of(unit_of("ns"@)->0),
        unit_of("ms"@) is Some && nanos_of(unit_of("ms"@)->0) == 1000 * nanos_of(unit_of("us"@)->0),
        unit_of("s"@) is Some && nanos_of(unit_of("s"@)->0) == 1000 * nanos_of(unit_of("ms"@)->0),
        unit_of("m"@) is Some && nanos_of(unit_of("m"@)->0) == 60 * nanos_of(unit_of("s"@)->0),
        unit_of("h"@) is Some && nanos_of(unit_of("h"@)->0) == 60 * nanos_of(unit_of("m"@)->0),
        unit_of("d"@) is Some && nanos_of(unit_of("d"@)->0) == 24 * nanos_of(unit_of("h"@)->0),
        unit_of("w"@) is Some && nanos_of(unit_of("w"@)->0) == 7 * nanos_of(unit_of("d"@)->0),
        unit_of("y"@) is Some
            && 4 * nanos_of(unit_of("y"@)->0) == 1_461 * nanos_of(unit_of("d"@)->0),
        unit_of("M"@) is Some && nanos_of(unit_of("y"@)->0) <= 12 * nanos_of(unit_of("M"@)->0)
            <= nanos_of(unit_of("y"@)->0) + nanos_of(unit_of("h"@)->0),
        unit_of("nsec"@) == unit_of("ns"@),
        unit_of("nanos"@) == unit_of("ns"@),
        unit_of("usec"@) == unit_of("us"@),
        unit_of("\u{b5}s"@) == unit_of("us"@),
        unit_of("msec"@) == unit_of("ms"@),
        unit_of("millis"@) == unit_of("ms"@),
        unit_of("sec"@) == unit_of("s"@),
        unit_of("secs"@) == unit_of("s"@),
        unit_of("second"@) == unit_of("s"@),
        unit_of("seconds"@) == unit_of("s"@),
        unit_of("min"@) == unit_of("m"@),
        unit_of("mins"@) == unit_of("m"@),
        unit_of("minute"@) == unit_of("m"@),
        unit_of("minutes"@) == unit_of("m"@),
        unit_of("hr"@) == unit_of("h"@),
        unit_of("hrs"@) == unit_of("h"@),
        unit_of("hour"@) == unit_of("h"@),
        unit_of("hours"@) == unit_of("h"@),
        unit_of("day"@) == unit_of("d"@),
        unit_of("days"@) == unit_of("d"@),
        unit_of("wk"@) == unit_of("w"@),
        unit_of("wks"@) == unit_of("w"@),
        unit_of("week"@) == unit_of("w"@),
        unit_of("weeks"@) == unit_of("w"@),
        unit_of("month"@) == unit_of("M"@),
        unit_of("months"@) == unit_of("M"@),
        unit_of("yr"@) == unit_of("y"@),
        unit_of("yrs"@) == unit_of("y"@),
        unit_of("year"@) == unit_of("y"@),
        unit_of("years"@) == unit_of("y"@),
{
    reveal_strlit("ns");
    reveal_strlit("nsec");
    reveal_strlit("nanos");
    reveal_strlit("us");
    reveal_strlit("usec");
    reveal_strlit("\u{b5}s");
    reveal_strlit("ms");
    reveal_strlit("msec");
    reveal_strlit("millis");
    reveal_strlit("s");
    reveal_strlit("sec");
    reveal_strlit("secs");
    reveal_strlit("second");
    reveal_strlit("seconds");
    reveal_strlit("m");
    reveal_strlit("min");
    reveal_strlit("mins");
    reveal_strlit("minute");
    reveal_strlit("minutes");
    reveal_strlit("h");
    reveal_strlit("hr");
    reveal_strlit("hrs");
    reveal_strlit("hour");
    reveal_strlit("hours");
    reveal_strlit("d");
    reveal_strlit("day");
    reveal_strlit("days");
    reveal_strlit("w");
    reveal_strlit("wk");
    reveal_strlit("wks");
    reveal_strlit("week");
    reveal_strlit("weeks");
    reveal_strlit("M");
    reveal_strlit("month");
    reveal_strlit("months");
    reveal_strlit("y");
    reveal_strlit("yr");
    reveal_strlit("yrs");
    reveal_strlit("year");
    reveal_strlit("years");
    assert("ns"@[0] == 'n' && "nsec"@[0] == 'n' && "nanos"@[0] == 'n');
    assert("us"@[0] == 'u' && "usec"@[0] == 'u');
    assert("ms"@[0] == 'm' && "msec"@[0] == 'm' && "millis"@[0] == 'm');
    assert("s"@[0] == 's' && "sec"@[0] == 's' && "secs"@[0] == 's' && "second"@[0] == 's'
        && "seconds"@[0] == 's');
    assert("m"@[0] == 'm' && "min"@[0] == 'm' && "mins"@[0] == 'm' && "minute"@[0] == 'm'
        && "minutes"@[0] == 'm');
    assert("h"@[0] == 'h' && "hr"@[0] == 'h' && "hrs"@[0] == 'h' && "hour"@[0] == 'h'
        && "hours"@[0] == 'h');
    assert("d"@[0] == 'd' && "day"@[0] == 'd' && "days"@[0] == 'd');
    assert("w"@[0] == 'w' && "wk"@[0] == 'w' && "wks"@[0] == 'w' && "week"@[0] == 'w'
        && "weeks"@[0] == 'w');
    assert("M"@[0] == 'M' && "month"@[0] == 'm' && "months"@[0] == 'm');
    assert("y"@[0] == 'y' && "yr"@[0] == 'y' && "yrs"@[0] == 'y' && "year"@[0] == 'y'
        && "years"@[0] == 'y');
    assert("\u{b5}s"@[0] == '\u{b5}');
    assert("msec"@[1] == 's' && "mins"@[1] == 'i');
    assert("millis"@[2] == 'l' && "minute"@[2] == 'n' && "months"@[2] == 'n');
    assert("minute"@[1] == 'i' && "months"@[1] == 'o');
    assert("ns"@.len() == 2 && "nsec"@.len() == 4 && "nanos"@.len() == 5);
    assert("us"@.len() == 2 && "usec"@.len() == 4 && "\u{b5}s"@.len() == 2);
    assert("ms"@.len() == 2 && "msec"@.len() == 4 && "millis"@.len() == 6);
    assert("s"@.len() == 1 && "sec"@.len() == 3 && "secs"@.len() == 4 && "second"@.len() == 6
        && "seconds"@.len() == 7);
    assert("m"@.len() == 1 && "min"@.len() == 3 && "mins"@.len() == 4 && "minute"@.len() == 6
        && "minutes"@.len() == 7);
    assert("h"@.len() == 1 && "hr"@.len() == 2 && "hrs"@.len() == 3 && "hour"@.len() == 4
        && "hours"@.len() == 5);
    assert("d"@.len() == 1 && "day"@.len() == 3 && "days"@.len() == 4);
    assert("w"@.len() == 1 && "wk"@.len() == 2 && "wks"@.len() == 3 && "week"@.len() == 4
        && "weeks"@.len() == 5);
    assert("M"@.len() == 1 && "month"@.len() == 5 && "months"@.len() == 6);
    assert("y"@.len() == 1 && "yr"@.len() == 2 && "yrs"@.len() == 3 && "year"@.len() == 4
        && "years"@.len() == 5);
}

} // verus!

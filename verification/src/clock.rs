//! Spans of time: how long a game took, and how that is shown.

use vstd::prelude::*;

verus! {

/// The time from `start` to `now` on a clock that does not run backwards.
pub open spec fn elapsed_between(start: int, now: int) -> int {
    if now >= start {
        now - start
    } else {
        0
    }
}

/// The character that stands for the digit `d`.
pub open spec fn digit_char(d: int) -> char {
    if d == 0 {
        '0'
    } else if d == 1 {
        '1'
    } else if d == 2 {
        '2'
    } else if d == 3 {
        '3'
    } else if d == 4 {
        '4'
    } else if d == 5 {
        '5'
    } else if d == 6 {
        '6'
    } else if d == 7 {
        '7'
    } else if d == 8 {
        '8'
    } else {
        '9'
    }
}

/// The decimal digits of `n`, without leading zeros.
pub open spec fn decimal(n: nat) -> Seq<char>
    decreases n,
{
    if n < 10 {
        seq![digit_char(n as int)]
    } else {
        decimal(n / 10).push(digit_char((n % 10) as int))
    }
}

/// The decimal digits of `n`, with zeros in front where there are fewer than three.
pub open spec fn decimal_padded(n: nat) -> Seq<char> {
    if n < 10 {
        seq!['0', '0'] + decimal(n)
    } else if n < 100 {
        seq!['0'] + decimal(n)
    } else {
        decimal(n)
    }
}

/// The text that shows a time of `seconds` seconds and `millis`
/// milliseconds: the seconds, a point, the milliseconds in three digits, and
/// the word for the unit.
pub open spec fn elapsed_text(seconds: nat, millis: nat) -> Seq<char> {
    decimal(seconds) + seq!['.'] + decimal_padded(millis) + seq![
        ' ',
        's',
        'e',
        'c',
        'o',
        'n',
        'd',
        's',
    ]
}

/// `String::push` of std appends the character to the end of the string and
/// leaves what was there as it was.
pub assume_specification[ String::push ](text: &mut String, ch: char)
    ensures
        final(text)@ == old(text)@.push(ch),
;

/// The character that stands for the digit `d`.
fn digit(d: u64) -> (c: char)
    requires
        d < 10,
    ensures
        c == digit_char(d as int),
{
    if d == 0 {
        '0'
    } else if d == 1 {
        '1'
    } else if d == 2 {
        '2'
    } else if d == 3 {
        '3'
    } else if d == 4 {
        '4'
    } else if d == 5 {
        '5'
    } else if d == 6 {
        '6'
    } else if d == 7 {
        '7'
    } else if d == 8 {
        '8'
    } else {
        '9'
    }
}

/// Appends the decimal digits of `n` to `out`.
fn push_decimal(out: &mut String, n: u64)
    ensures
        final(out)@ == old(out)@ + decimal(n as nat),
    decreases n,
{
    if n >= 10 {
        push_decimal(out, n / 10);
    }
    out.push(digit(n % 10));
}

/// A span of time as whole seconds and the milliseconds beyond them.
#[derive(Clone, Copy, Debug, PartialEq, Eq, Structural)]
pub struct ElapsedTime {
    pub seconds: u64,
    pub millis: u64,
}

impl ElapsedTime {
    /// Splits a number of milliseconds into seconds and a rest below 1000.
    pub fn from_millis(total: u64) -> (time: ElapsedTime)
        ensures
            time.seconds == total / 1000,
            time.millis == total % 1000,
            time.millis < 1000,
            time.seconds * 1000 + time.millis == total,
    {
        ElapsedTime { seconds: total / 1000, millis: total % 1000 }
    }

    /// The time as it is shown: for 1 second and 50 milliseconds, `1.050 seconds`.
    pub fn text(&self) -> (text: String)
        ensures
            text@ == elapsed_text(self.seconds as nat, self.millis as nat),
    {
        let mut out = String::new();
        push_decimal(&mut out, self.seconds);
        out.push('.');
        if self.millis < 100 {
            out.push('0');
        }
        if self.millis < 10 {
            out.push('0');
        }
        push_decimal(&mut out, self.millis);
        out.push(' ');
        out.push('s');
        out.push('e');
        out.push('c');
        out.push('o');
        out.push('n');
        out.push('d');
        out.push('s');
        assert(out@ == elapsed_text(self.seconds as nat, self.millis as nat));
        out
    }
}

} // verus!

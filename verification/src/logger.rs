//! Time stamps of the diagnostic log: `HH:MM:SS.mmm` of the time of day.

use vstd::prelude::*;
use crate::number::{digit_char, digit_character};
use crate::text::chars_to_string;

verus! {

/// `n` below 100 as two digits.
pub open spec fn two_digits(n: nat) -> Seq<char> {
    seq![digit_char(n / 10), digit_char(n % 10)]
}

/// `n` below 1000 as three digits.
pub open spec fn three_digits(n: nat) -> Seq<char> {
    seq![digit_char(n / 100), digit_char((n / 10) % 10), digit_char(n % 10)]
}

/// The time stamp of a moment `secs` seconds and `millis` milliseconds
/// after the epoch: hours of the day, minutes and seconds, two digits each,
/// and three digits of milliseconds.
pub open spec fn clock_text_spec(secs: nat, millis: nat) -> Seq<char> {
    two_digits((secs / 3600) % 24) + seq![':'] + two_digits((secs / 60) % 60) + seq![':'] + two_digits(secs % 60)
        + seq!['.'] + three_digits(millis)
}

/// The log time stamp, as `clock_text_spec` says.
pub fn clock_text(secs: u64, millis: u32) -> (s: String)
    requires
        millis < 1000,
    ensures
        s@ == clock_text_spec(secs as nat, millis as nat),
{
    let h = (secs / 3600) % 24;
    let m = (secs / 60) % 60;
    let sec = secs % 60;
    let ms = millis as u64;
    let mut v: Vec<char> = Vec::new();
    v.push(digit_character(h / 10));
    v.push(digit_character(h % 10));
    v.push(':');
    v.push(digit_character(m / 10));
    v.push(digit_character(m % 10));
    v.push(':');
    v.push(digit_character(sec / 10));
    v.push(digit_character(sec % 10));
    v.push('.');
    v.push(digit_character(ms / 100));
    v.push(digit_character((ms / 10) % 10));
    v.push(digit_character(ms % 10));
    assert(v@ =~= clock_text_spec(secs as nat, millis as nat));
    chars_to_string(&v)
}

} // verus!

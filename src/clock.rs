//! Local wall-clock time as plain values, read from the system clock, and
//! its textual forms.
use vstd::prelude::*;
use chrono::{Datelike, Timelike};
use crate::text::{push_zero_padded, string_of, zero_padded};

verus! {

/// A local date and time.
#[derive(Clone, Copy)]
pub struct LocalTime {
    pub year: i32,
    pub month: u32,
    pub day: u32,
    pub hour: u32,
    pub minute: u32,
    pub second: u32,
    /// Nanoseconds past the second; from 1_000_000_000 on during a leap second.
    pub nanosecond: u32,
}

impl LocalTime {
    /// Every field lies in its calendar range.
    pub open spec fn wf(&self) -> bool {
        &&& 1 <= self.month <= 12
        &&& 1 <= self.day <= 31
        &&& self.hour < 24
        &&& self.minute < 60
        &&& self.second < 60
        &&& self.nanosecond < 2_000_000_000
    }
}

/// Relies on `chrono::Local::now` and its `Datelike` / `Timelike` accessors:
/// the current local date and time, month in 1..=12, day in 1..=31, hour in
/// 0..=23, minute and second in 0..=59, nanosecond below 2_000_000_000.
#[verifier::external_body]
pub(crate) fn local_now() -> (t: LocalTime)
    ensures
        t.wf(),
{
    let now = chrono::Local::now();
    LocalTime {
        year: now.year(),
        month: now.month(),
        day: now.day(),
        hour: now.hour(),
        minute: now.minute(),
        second: now.second(),
        nanosecond: now.nanosecond(),
    }
}

/// The year with at least four digits; a sign in front outside 0..=9999.
pub open spec fn year_text(y: i32) -> Seq<char> {
    if 0 <= y <= 9999 {
        zero_padded(y as nat, 4)
    } else if y > 9999 {
        seq!['+'] + zero_padded(y as nat, 4)
    } else {
        seq!['-'] + zero_padded((-y) as nat, 4)
    }
}

/// `YYYY-MM-DD`.
pub open spec fn date_text(t: LocalTime) -> Seq<char> {
    year_text(t.year) + seq!['-'] + zero_padded(t.month as nat, 2) + seq!['-']
        + zero_padded(t.day as nat, 2)
}

/// `HH:MM:SS`.
pub open spec fn clock_text(t: LocalTime) -> Seq<char> {
    zero_padded(t.hour as nat, 2) + seq![':'] + zero_padded(t.minute as nat, 2) + seq![':']
        + zero_padded(t.second as nat, 2)
}

/// `HH:MM:SS.mmm`.
pub open spec fn timestamp_text(t: LocalTime) -> Seq<char> {
    clock_text(t) + seq!['.'] + zero_padded((t.nanosecond / 1_000_000 % 1000) as nat, 3)
}

pub(crate) fn push_date(out: &mut Vec<char>, t: &LocalTime)
    ensures
        final(out)@ == old(out)@ + date_text(*t),
{
    let y = t.year;
    if 0 <= y && y <= 9999 {
        push_zero_padded(out, y as u64, 4);
    } else if y > 9999 {
        out.push('+');
        push_zero_padded(out, y as u64, 4);
    } else {
        out.push('-');
        let a: i64 = -(y as i64);
        push_zero_padded(out, a as u64, 4);
    }
    out.push('-');
    push_zero_padded(out, t.month as u64, 2);
    out.push('-');
    push_zero_padded(out, t.day as u64, 2);
    assert(out@ =~= old(out)@ + date_text(*t));
}

pub(crate) fn push_clock(out: &mut Vec<char>, t: &LocalTime)
    ensures
        final(out)@ == old(out)@ + clock_text(*t),
{
    push_zero_padded(out, t.hour as u64, 2);
    out.push(':');
    push_zero_padded(out, t.minute as u64, 2);
    out.push(':');
    push_zero_padded(out, t.second as u64, 2);
    assert(out@ =~= old(out)@ + clock_text(*t));
}

/// `t` as `HH:MM:SS`.
pub fn format_clock(t: &LocalTime) -> (r: String)
    ensures
        r@ == clock_text(*t),
{
    let mut out: Vec<char> = Vec::new();
    push_clock(&mut out, t);
    assert(out@ =~= clock_text(*t));
    string_of(&out)
}

/// `t` as `HH:MM:SS.mmm`.
pub fn format_timestamp(t: &LocalTime) -> (r: String)
    ensures
        r@ == timestamp_text(*t),
{
    let mut out: Vec<char> = Vec::new();
    push_clock(&mut out, t);
    out.push('.');
    push_zero_padded(&mut out, (t.nanosecond / 1_000_000 % 1000) as u64, 3);
    assert(out@ =~= timestamp_text(*t));
    string_of(&out)
}

/// The current local time as `HH:MM:SS.mmm`.
pub fn get_timestamp() -> (r: String)
    ensures
        exists|t: LocalTime| t.wf() && r@ == timestamp_text(t),
{
    let t = local_now();
    format_timestamp(&t)
}

} // verus!

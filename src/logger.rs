//! Log rotation by time window and selective persistence by severity.
//! The logger decides which file a message goes to and what text is
//! written; opening and appending to the file is left to the caller.
use vstd::prelude::*;
use crate::ansi::{strip_all, strip_ansi_codes};
use crate::clock::{LocalTime, date_text, local_now, push_date};
use crate::text::{chars_of, digit_char, lemma_two_digits, push_zero_padded, string_of, zero_padded};

verus! {

/// How much time one log file covers.
#[derive(Clone, Copy, PartialEq, Eq, Structural, Debug)]
pub enum LogInterval {
    OneHour,
    ThreeHour,
    SixHour,
    NineHour,
    TwelveHour,
    OneDay,
}

/// Severity of a message.
#[derive(Clone, Copy, PartialEq, Eq, Structural, Debug)]
pub enum LogLevel {
    Debug,
    Info,
    Warn,
    Error,
    Success,
}

/// Hours per window.
pub open spec fn interval_hours(i: LogInterval) -> nat {
    match i {
        LogInterval::OneHour => 1,
        LogInterval::ThreeHour => 3,
        LogInterval::SixHour => 6,
        LogInterval::NineHour => 9,
        LogInterval::TwelveHour => 12,
        LogInterval::OneDay => 24,
    }
}

/// First hour of the window that holds hour `h`.
pub open spec fn window_start(h: nat, i: LogInterval) -> nat {
    (h / interval_hours(i)) * interval_hours(i)
}

/// The bucket of time `t`: `YYYY-MM-DD-SSh-EEh`, where `SS` is the first
/// hour of the window and `EE` the hour that follows it, modulo 24; a whole
/// day is `YYYY-MM-DD-00h-24h`.
pub open spec fn bucket_name(t: LocalTime, i: LogInterval) -> Seq<char> {
    let (start, end) = match i {
        LogInterval::OneDay => (0nat, 24nat),
        _ => {
            let s = window_start(t.hour as nat, i);
            (s, ((s + interval_hours(i)) % 24) as nat)
        },
    };
    date_text(t) + seq!['-'] + zero_padded(start, 2) + seq!['h', '-'] + zero_padded(end, 2)
        + seq!['h']
}

impl LogInterval {
    /// The bucket that time `now` falls in under this interval.
    pub fn get_file_timestamp(&self, now: &LocalTime) -> (r: String)
        requires
            now.wf(),
        ensures
            r@ == bucket_name(*now, *self),
    {
        let n: u32 = match self {
            LogInterval::OneHour => 1,
            LogInterval::ThreeHour => 3,
            LogInterval::SixHour => 6,
            LogInterval::NineHour => 9,
            LogInterval::TwelveHour => 12,
            LogInterval::OneDay => 24,
        };
        let (start, end): (u32, u32) = match self {
            LogInterval::OneDay => (0, 24),
            _ => {
                let s = (now.hour / n) * n;
                assert(s <= now.hour) by (nonlinear_arith)
                    requires s == (now.hour / n) * n, n > 0;
                (s, (s + n) % 24)
            },
        };
        let mut out: Vec<char> = Vec::new();
        push_date(&mut out, now);
        out.push('-');
        push_zero_padded(&mut out, start as u64, 2);
        out.push('h');
        out.push('-');
        push_zero_padded(&mut out, end as u64, 2);
        out.push('h');
        assert(out@ =~= bucket_name(*now, *self));
        string_of(&out)
    }
}

/// `s` holds the character `c`.
pub open spec fn has_char(s: Seq<char>, c: char) -> bool {
    exists|k: int| 0 <= k < s.len() && s[k] == c
}

/// The severity that a rendered message carries, by the first of the symbols
/// ℹ, ⚠, ✖, ✔, ⁂ (in that order) that it holds.
pub open spec fn level_of(s: Seq<char>) -> Option<LogLevel> {
    if has_char(s, 'ℹ') {
        Some(LogLevel::Info)
    } else if has_char(s, '⚠') {
        Some(LogLevel::Warn)
    } else if has_char(s, '✖') {
        Some(LogLevel::Error)
    } else if has_char(s, '✔') {
        Some(LogLevel::Success)
    } else if has_char(s, '⁂') {
        Some(LogLevel::Debug)
    } else {
        None
    }
}

fn has_char_exec(s: &Vec<char>, c: char) -> (r: bool)
    ensures
        r == has_char(s@, c),
{
    let mut i: usize = 0;
    while i < s.len()
        invariant
            i <= s@.len(),
            forall|k: int| 0 <= k < i ==> s@[k] != c,
        decreases s.len() - i,
    {
        if s[i] == c {
            return true;
        }
        i = i + 1;
    }
    false
}

impl LogLevel {
    /// The severity that `message` carries, if any.
    pub fn from_message(message: &str) -> (r: Option<LogLevel>)
        ensures
            r == level_of(message@),
    {
        let s = chars_of(message);
        if has_char_exec(&s, 'ℹ') {
            Some(LogLevel::Info)
        } else if has_char_exec(&s, '⚠') {
            Some(LogLevel::Warn)
        } else if has_char_exec(&s, '✖') {
            Some(LogLevel::Error)
        } else if has_char_exec(&s, '✔') {
            Some(LogLevel::Success)
        } else if has_char_exec(&s, '⁂') {
            Some(LogLevel::Debug)
        } else {
            None
        }
    }
}

/// One line to append: the file (inside the logger's directory) and the text.
pub struct LogEntry {
    pub file_name: String,
    pub line: String,
}

/// Where `message`, written at time `t` with the given allow-set and interval,
/// goes and what is written: nothing when it carries no severity or one
/// outside the allow-set; else `<bucket>.log` and the message stripped of its
/// escape sequences.
pub open spec fn entry_spec(
    levels: Seq<LogLevel>,
    interval: LogInterval,
    message: Seq<char>,
    t: LocalTime,
) -> Option<(Seq<char>, Seq<char>)> {
    match level_of(message) {
        Some(l) => if levels.contains(l) {
            Some((bucket_name(t, interval) + seq!['.', 'l', 'o', 'g'], strip_all(message)))
        } else {
            None
        },
        None => None,
    }
}

/// A file logger: a directory, a rotation interval, and the severities that
/// are written.
pub struct Logger {
    base_path: String,
    log_interval: LogInterval,
    log_levels: Vec<LogLevel>,
}

impl Logger {
    /// The directory that holds the log files.
    pub closed spec fn base(&self) -> Seq<char> {
        self.base_path@
    }

    /// The rotation interval.
    pub closed spec fn interval(&self) -> LogInterval {
        self.log_interval
    }

    /// The severities that are written, in the order they were added.
    pub closed spec fn levels(&self) -> Seq<LogLevel> {
        self.log_levels@
    }

    /// A logger into `base_path` that writes every severity.
    pub fn new(base_path: String, log_interval: LogInterval) -> (r: Logger)
        ensures
            r.base() == base_path@,
            r.interval() == log_interval,
            r.levels() == seq![
                LogLevel::Debug,
                LogLevel::Info,
                LogLevel::Warn,
                LogLevel::Error,
                LogLevel::Success,
            ],
    {
        let r = Logger {
            base_path,
            log_interval,
            log_levels: vec![
                LogLevel::Debug,
                LogLevel::Info,
                LogLevel::Warn,
                LogLevel::Error,
                LogLevel::Success,
            ],
        };
        assert(r.log_levels@ =~= seq![
            LogLevel::Debug,
            LogLevel::Info,
            LogLevel::Warn,
            LogLevel::Error,
            LogLevel::Success,
        ]);
        r
    }

    /// The directory that holds the log files.
    pub fn base_path(&self) -> (r: &str)
        ensures
            r@ == self.base(),
    {
        self.base_path.as_str()
    }

    /// Writes no severity from now on, until some are added.
    pub fn clear_log_levels(&mut self)
        ensures
            final(self).levels() == Seq::<LogLevel>::empty(),
            final(self).base() == old(self).base(),
            final(self).interval() == old(self).interval(),
    {
        self.log_levels.clear();
    }

    /// Writes `log_level` too.
    pub fn add_log_level(&mut self, log_level: LogLevel)
        ensures
            final(self).levels() == old(self).levels().push(log_level),
            final(self).base() == old(self).base(),
            final(self).interval() == old(self).interval(),
    {
        self.log_levels.push(log_level);
    }

    fn allows(&self, level: LogLevel) -> (r: bool)
        ensures
            r == self.levels().contains(level),
    {
        let mut i: usize = 0;
        while i < self.log_levels.len()
            invariant
                i <= self.log_levels@.len(),
                forall|k: int| 0 <= k < i ==> self.log_levels@[k] != level,
            decreases self.log_levels.len() - i,
        {
            if self.log_levels[i] == level {
                return true;
            }
            i = i + 1;
        }
        false
    }

    /// What writing `message` at time `now` amounts to, per `entry_spec`.
    pub fn entry_at(&self, message: &str, now: &LocalTime) -> (r: Option<LogEntry>)
        requires
            now.wf(),
        ensures
            match entry_spec(self.levels(), self.interval(), message@, *now) {
                Some((f, l)) => r matches Some(e) && e.file_name@ == f && e.line@ == l,
                None => r is None,
            },
    {
        match LogLevel::from_message(message) {
            Some(level) => {
                if self.allows(level) {
                    let bucket = self.log_interval.get_file_timestamp(now);
                    let mut name = chars_of(bucket.as_str());
                    name.push('.');
                    name.push('l');
                    name.push('o');
                    name.push('g');
                    assert(name@ =~= bucket_name(*now, self.interval()) + seq!['.', 'l', 'o', 'g']);
                    let line = strip_ansi_codes(message);
                    Some(LogEntry { file_name: string_of(&name), line })
                } else {
                    None
                }
            },
            None => None,
        }
    }

    /// What writing `message` now amounts to: the same as `entry_at` for the
    /// local time at the moment of the call.
    pub fn log(&self, message: &str) -> (r: Option<LogEntry>)
        ensures
            exists|t: LocalTime| {
                &&& t.wf()
                &&& match entry_spec(self.levels(), self.interval(), message@, t) {
                    Some((f, l)) => r matches Some(e) && e.file_name@ == f && e.line@ == l,
                    None => r is None,
                }
            },
    {
        let now = local_now();
        self.entry_at(message, &now)
    }
}


/// `a` and `b` fall on the same calendar day.
pub open spec fn same_date(a: LocalTime, b: LocalTime) -> bool {
    a.year == b.year && a.month == b.month && a.day == b.day
}

/// On one day, two times in the same window share their bucket.
pub proof fn lemma_bucket_same_window(a: LocalTime, b: LocalTime, i: LogInterval)
    requires
        same_date(a, b),
        window_start(a.hour as nat, i) == window_start(b.hour as nat, i),
    ensures
        bucket_name(a, i) == bucket_name(b, i),
{
    assert(date_text(a) == date_text(b));
}

/// On one day, two times in different windows (of an interval shorter than a
/// day) get different buckets.
pub proof fn lemma_bucket_new_window(a: LocalTime, b: LocalTime, i: LogInterval)
    requires
        a.wf(),
        b.wf(),
        same_date(a, b),
        i != LogInterval::OneDay,
        window_start(a.hour as nat, i) != window_start(b.hour as nat, i),
    ensures
        bucket_name(a, i) != bucket_name(b, i),
{
    let n = interval_hours(i);
    let sa = window_start(a.hour as nat, i);
    let sb = window_start(b.hour as nat, i);
    assert(sa <= a.hour) by (nonlinear_arith)
        requires sa == (a.hour as nat / n) * n, n > 0;
    assert(sb <= b.hour) by (nonlinear_arith)
        requires sb == (b.hour as nat / n) * n, n > 0;
    lemma_two_digits(sa);
    lemma_two_digits(sb);
    let d = date_text(a);
    assert(date_text(b) == d);
    let ba = bucket_name(a, i);
    let bb = bucket_name(b, i);
    let k = d.len() as int;
    assert(ba[k + 1] == digit_char(sa / 10));
    assert(ba[k + 2] == digit_char(sa % 10));
    assert(bb[k + 1] == digit_char(sb / 10));
    assert(bb[k + 2] == digit_char(sb % 10));
    assert(sa / 10 != sb / 10 || sa % 10 != sb % 10);
    if ba == bb {
        assert(digit_char(sa / 10) == digit_char(sb / 10));
        assert(digit_char(sa % 10) == digit_char(sb % 10));
    }
}

/// With one-hour files, two times of one day share a bucket exactly when
/// they fall in the same clock hour.
pub proof fn lemma_one_hour_buckets(a: LocalTime, b: LocalTime)
    requires
        a.wf(),
        b.wf(),
        same_date(a, b),
    ensures
        (bucket_name(a, LogInterval::OneHour) == bucket_name(b, LogInterval::OneHour))
            <==> a.hour == b.hour,
{
    assert(window_start(a.hour as nat, LogInterval::OneHour) == a.hour);
    assert(window_start(b.hour as nat, LogInterval::OneHour) == b.hour);
    if a.hour == b.hour {
        lemma_bucket_same_window(a, b, LogInterval::OneHour);
    } else {
        lemma_bucket_new_window(a, b, LogInterval::OneHour);
    }
}

/// With three-hour files, hours 0, 1 and 2 of one day share a bucket and
/// hour 3 starts another.
pub proof fn lemma_three_hour_buckets(h0: LocalTime, h1: LocalTime, h2: LocalTime, h3: LocalTime)
    requires
        h0.wf(),
        h3.wf(),
        same_date(h0, h1),
        same_date(h0, h2),
        same_date(h0, h3),
        h0.hour == 0,
        h1.hour == 1,
        h2.hour == 2,
        h3.hour == 3,
    ensures
        bucket_name(h0, LogInterval::ThreeHour) == bucket_name(h1, LogInterval::ThreeHour),
        bucket_name(h0, LogInterval::ThreeHour) == bucket_name(h2, LogInterval::ThreeHour),
        bucket_name(h0, LogInterval::ThreeHour) != bucket_name(h3, LogInterval::ThreeHour),
{
    assert(window_start(0, LogInterval::ThreeHour) == 0);
    assert(window_start(1, LogInterval::ThreeHour) == 0);
    assert(window_start(2, LogInterval::ThreeHour) == 0);
    assert(window_start(3, LogInterval::ThreeHour) == 3);
    lemma_bucket_same_window(h0, h1, LogInterval::ThreeHour);
    lemma_bucket_same_window(h0, h2, LogInterval::ThreeHour);
    lemma_bucket_new_window(h0, h3, LogInterval::ThreeHour);
}

/// A message that carries the error symbol (and neither the info nor the
/// warning symbol, which take precedence) is dropped while errors are not in
/// the allow-set, and otherwise yields exactly one line: the message without
/// its escape sequences, in the bucket of the moment.
pub proof fn lemma_error_message_filing(logger: Logger, message: Seq<char>, t: LocalTime)
    requires
        has_char(message, '✖'),
        !has_char(message, 'ℹ'),
        !has_char(message, '⚠'),
    ensures
        level_of(message) == Some(LogLevel::Error),
        !logger.levels().contains(LogLevel::Error) ==> entry_spec(
            logger.levels(),
            logger.interval(),
            message,
            t,
        ) is None,
        logger.levels().contains(LogLevel::Error) ==> entry_spec(
            logger.levels(),
            logger.interval(),
            message,
            t,
        ) == Some((bucket_name(t, logger.interval()) + seq!['.', 'l', 'o', 'g'], strip_all(message))),
{
}

} // verus!

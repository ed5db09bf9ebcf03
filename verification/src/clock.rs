//! The time of a capture and how it is shown.

use vstd::prelude::*;
use crate::text;

verus! {

/// The first second, counted from 1970, of the years that the calendar covers.
pub const FIRST_SECOND: i64 = -8_334_601_228_800;

/// The last second, counted from 1970, of the years that the calendar covers.
pub const LAST_SECOND: i64 = 8_210_266_876_799;

/// A moment in UTC, in seconds and nanoseconds from the start of 1970.
#[derive(Debug, Clone, Copy)]
pub struct CaptureTime {
    seconds: i64,
    nanos: u32,
}

/// Whether the two numbers name a moment: a second of the calendar, and less than a second
/// more, or less than two in the last second of a minute, which may be a leap second.
pub open spec fn is_moment(seconds: int, nanos: int) -> bool {
    &&& FIRST_SECOND <= seconds <= LAST_SECOND
    &&& 0 <= nanos < 2_000_000_000
    &&& nanos >= 1_000_000_000 ==> seconds % 60 == 59
}

/// A number below one hundred in two digits.
pub open spec fn two_digits(n: int) -> Seq<char> {
    seq![text::digit(n / 10), text::digit(n % 10)]
}

/// A number below one thousand in three digits.
pub open spec fn three_digits(n: int) -> Seq<char> {
    seq![text::digit(n / 100), text::digit(n / 10 % 10), text::digit(n % 10)]
}

/// The time of day of a moment: hours, minutes, seconds and milliseconds, where a leap
/// second counts as second 60.
pub open spec fn clock_text(seconds: int, nanos: int) -> Seq<char> {
    let second_of_day = seconds % 86_400;
    two_digits(second_of_day / 3_600) + seq![':'] + two_digits(second_of_day / 60 % 60) + seq![':']
        + two_digits(second_of_day % 60 + nanos / 1_000_000_000) + seq!['.'] + three_digits(
        nanos / 1_000_000 % 1_000,
    )
}

/// `chrono::DateTime::<Utc>::format`, with the format `%H:%M:%S%.3f`, writes the time of day
/// with milliseconds. The moment comes from `chrono::DateTime::<Utc>::from_timestamp`, which
/// takes exactly the moments of the calendar.
#[verifier::external_body]
fn format_clock(seconds: i64, nanos: u32) -> (out: Option<String>)
    ensures
        out is Some <==> is_moment(seconds as int, nanos as int),
        out matches Some(s) ==> s@ == clock_text(seconds as int, nanos as int),
{
    chrono::DateTime::<chrono::Utc>::from_timestamp(seconds, nanos)
        .map(|moment| moment.format("%H:%M:%S%.3f").to_string())
}

/// `chrono::Utc::now` gives the present time. It does not return where the machine's clock
/// stands before 1970 or behind the calendar. Which moment it gives depends on the clock and is
/// left unsaid.
#[verifier::external_body]
fn now_in_utc() -> (now: (i64, u32))
    ensures
        0 <= now.0 <= LAST_SECOND,
        now.1 < 1_000_000_000,
{
    let now = chrono::Utc::now();
    (now.timestamp(), now.timestamp_subsec_nanos())
}

impl CaptureTime {
    #[verifier::type_invariant]
    spec fn inv(self) -> bool {
        is_moment(self.seconds as int, self.nanos as int)
    }

    /// Whole seconds from the start of 1970.
    pub closed spec fn secs(self) -> int {
        self.seconds as int
    }

    /// Nanoseconds since the last whole second.
    pub closed spec fn subsec(self) -> int {
        self.nanos as int
    }

    /// The moment of these numbers, if they name one.
    pub fn new(seconds: i64, nanos: u32) -> (r: Option<CaptureTime>)
        ensures
            r is Some <==> is_moment(seconds as int, nanos as int),
            r matches Some(t) ==> t.secs() == seconds && t.subsec() == nanos,
    {
        if seconds < FIRST_SECOND || seconds > LAST_SECOND || nanos >= 2_000_000_000 {
            return None;
        }
        // The first second of the calendar starts a minute.
        let from_start: u64 = (seconds - FIRST_SECOND) as u64;
        if nanos >= 1_000_000_000 && from_start % 60 != 59 {
            return None;
        }
        Some(CaptureTime { seconds, nanos })
    }

    /// The present time.
    pub fn now() -> (t: CaptureTime)
        ensures
            0 <= t.secs() <= LAST_SECOND,
            t.subsec() < 1_000_000_000,
    {
        let (seconds, nanos): (i64, u32) = now_in_utc();
        CaptureTime { seconds, nanos }
    }

    /// The time of day, as `HH:MM:SS.mmm`.
    pub fn text(&self) -> (out: String)
        ensures
            out@ == clock_text(self.secs(), self.subsec()),
    {
        proof {
            use_type_invariant(*self);
        }
        match format_clock(self.seconds, self.nanos) {
            Some(out) => out,
            None => String::new(),
        }
    }
}

/// The time of day takes twelve characters.
pub proof fn law_clock_text_length(seconds: int, nanos: int)
    ensures
        clock_text(seconds, nanos).len() == 12,
{
}


proof fn lemma_two_digits(n: int)
    requires
        0 <= n < 100,
    ensures
        10 * (two_digits(n)[0] as int - '0' as int) + (two_digits(n)[1] as int - '0' as int) == n,
{
}

proof fn lemma_three_digits(n: int)
    requires
        0 <= n < 1_000,
    ensures
        100 * (three_digits(n)[0] as int - '0' as int) + 10 * (three_digits(n)[1] as int - '0' as int) + (
        three_digits(n)[2] as int - '0' as int) == n,
{
}

proof fn lemma_time_of_day(second: int)
    requires
        0 <= second < 86_400,
    ensures
        0 <= second / 3_600 < 24,
        3_600 * (second / 3_600) + 60 * (second / 60 % 60) + second % 60 == second,
{
}

/// The number that two digits from `i` on make.
pub open spec fn two_at(s: Seq<char>, i: int) -> int {
    10 * (s[i] as int - '0' as int) + (s[i + 1] as int - '0' as int)
}

/// The time of day can be told from its text: hours, minutes, seconds and milliseconds stand in
/// their places with colons and a point between them, and count the seconds since midnight and the
/// milliseconds since the last second.
pub proof fn law_clock_text_tells_the_time(seconds: int, nanos: int)
    requires
        0 <= nanos < 1_000_000_000,
    ensures
        ({
            let s = clock_text(seconds, nanos);
            &&& s.len() == 12
            &&& s[2] == ':' && s[5] == ':' && s[8] == '.'
            &&& 3_600 * two_at(s, 0) + 60 * two_at(s, 3) + two_at(s, 6) == seconds % 86_400
            &&& 0 <= two_at(s, 0) < 24
            &&& 0 <= two_at(s, 3) < 60
            &&& 0 <= two_at(s, 6) < 60
            &&& 100 * (s[9] as int - '0' as int) + two_at(s, 10) == nanos / 1_000_000
        }),
{
    let s = clock_text(seconds, nanos);
    let day = seconds % 86_400;
    let (h, m, sec, milli) = (day / 3_600, day / 60 % 60, day % 60, nanos / 1_000_000);
    assert(nanos / 1_000_000_000 == 0);
    assert(milli % 1_000 == milli);
    let (a, b, c, d) = (two_digits(h), two_digits(m), two_digits(sec), three_digits(milli));
    assert(s == a + seq![':'] + b + seq![':'] + c + seq!['.'] + d);
    assert(s[0] == a[0] && s[1] == a[1] && s[3] == b[0] && s[4] == b[1] && s[6] == c[0] && s[7] == c[1]);
    assert(s[9] == d[0] && s[10] == d[1] && s[11] == d[2]);
    lemma_time_of_day(day);
    lemma_two_digits(h);
    lemma_two_digits(m);
    lemma_two_digits(sec);
    lemma_three_digits(milli);
}

} // verus!

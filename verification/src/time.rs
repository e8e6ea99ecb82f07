//! Instants on the UTC time line, with the arithmetic, parsing and formatting
//! of the `chrono` crate.

use vstd::prelude::*;
use crate::text::{digit, same_text};

verus! {

broadcast use vstd::string::group_string_axioms;

/// The first second that an instant can stand in (1 January -262143).
pub const MIN_SECS: i64 = -8_334_601_228_800;

/// The last second that an instant can stand in (31 December 262142).
pub const MAX_SECS: i64 = 8_210_266_876_799;

/// Nanoseconds in a second.
pub const SECOND: u32 = 1_000_000_000;

/// The format of a time of day in an audit trail.
pub const CLOCK_FORMAT: &'static str = "%H:%M:%S%.3fZ";

/// The format of a search window's bounds.
pub const STAMP_FORMAT: &'static str = "%Y-%m-%dT%H:%M:%S%.3fZ";

/// The date in the format of a search window's bounds.
pub const DATE_FORMAT: &'static str = "%Y-%m-%d";

/// Whether a pair of seconds since the Unix epoch and nanoseconds within the
/// second is an instant. From one second upwards the nanoseconds stand in a
/// leap second, which only the last second of a minute can have.
pub open spec fn is_instant(t: (int, int)) -> bool {
    &&& MIN_SECS <= t.0 <= MAX_SECS
    &&& 0 <= t.1 < 2 * SECOND
    &&& t.1 >= SECOND ==> t.0 % 60 == 59
}

/// The instant that lies `n` nanoseconds after the Unix epoch.
pub open spec fn from_nanos(n: int) -> (int, int) {
    (n / (SECOND as int), n % (SECOND as int))
}

/// The whole seconds in `d` nanoseconds, rounded toward zero.
pub open spec fn whole_seconds(d: int) -> int {
    if d >= 0 {
        d / (SECOND as int)
    } else {
        -((-d) / (SECOND as int))
    }
}

/// `t` moved by `d` nanoseconds. A leap second is left behind as if it were
/// the second before it when time moves on, and as if it were the second after
/// it when time moves back by at least a second; a smaller step stays inside it
/// as long as it can.
pub open spec fn moved(t: (int, int), d: int) -> (int, int) {
    let whole = whole_seconds(d);
    let part = d - whole * SECOND;
    if t.1 < SECOND {
        from_nanos(t.0 * SECOND + t.1 + d)
    } else if whole > 0 || (part > 0 && t.1 + part >= 2 * SECOND) {
        from_nanos(t.0 * SECOND + t.1 - SECOND + d)
    } else if whole < 0 {
        from_nanos(t.0 * SECOND + t.1 + d)
    } else {
        (t.0, t.1 + part)
    }
}

/// [`moved`] where the result is still within the time line.
pub open spec fn shifted(t: (int, int), d: int) -> Option<(int, int)> {
    if MIN_SECS <= moved(t, d).0 <= MAX_SECS {
        Some(moved(t, d))
    } else {
        None
    }
}

/// Nanoseconds from the Unix epoch to `t`, where they fit in 64 bits.
pub open spec fn nanos_since_epoch(t: (int, int)) -> Option<i64> {
    let n = t.0 * SECOND + t.1;
    if i64::MIN <= n <= i64::MAX {
        Some(n as i64)
    } else {
        None
    }
}

/// Whether `a` lies before `b`.
pub open spec fn precedes(a: (int, int), b: (int, int)) -> bool {
    a.0 < b.0 || (a.0 == b.0 && a.1 < b.1)
}

/// A number of two decimal digits, with a leading zero where it needs one.
pub open spec fn two_digits(n: int) -> Seq<char> {
    seq![digit(n / 10), digit(n % 10)]
}

/// The time of day of `t`: hours, minutes, seconds and milliseconds, as in
/// `12:00:01.234Z`. A leap second shows as second 60.
pub open spec fn clock_text(t: (int, int)) -> Seq<char> {
    let day = t.0 % 86_400;
    let millis = (t.1 / 1_000_000) % 1_000;
    two_digits(day / 3_600) + seq![':'] + two_digits((day / 60) % 60) + seq![':'] + two_digits(
        day % 60 + t.1 / (SECOND as int),
    ) + seq!['.'] + seq![digit(millis / 100)] + two_digits(millis % 100) + seq!['Z']
}

/// What the `format` method of a `chrono::DateTime<Utc>` writes for an instant
/// in a given format.
pub uninterp spec fn formatted(secs: int, nanos: int, format: Seq<char>) -> Seq<char>;

/// What `chrono::DateTime::parse_from_rfc3339` makes of a text: the instant in
/// UTC, or the words of its error.
pub uninterp spec fn rfc3339(text: Seq<char>) -> Result<(int, int), Seq<char>>;

/// Calls `chrono::DateTime::checked_add_signed` with
/// `chrono::Duration::milliseconds`. The claim: the sum is the instant moved by
/// that many milliseconds, leap seconds as in [`moved`], and `None` where it
/// leaves the time line.
#[verifier::external_body]
fn chrono_add_millis(secs: i64, nanos: u32, millis: i64) -> (r: Option<(i64, u32)>)
    requires
        is_instant((secs as int, nanos as int)),
        millis != i64::MIN,
    ensures
        match r {
            Some((s, n)) => shifted((secs as int, nanos as int), millis * 1_000_000) == Some(
                (s as int, n as int),
            ),
            None => shifted((secs as int, nanos as int), millis * 1_000_000) is None,
        },
{
    let t = chrono::DateTime::<chrono::Utc>::from_timestamp(secs, nanos).unwrap();
    let sum = t.checked_add_signed(chrono::Duration::milliseconds(millis));
    sum.map(|u| (u.timestamp(), u.timestamp_subsec_nanos()))
}

/// Calls `chrono::DateTime::checked_add_signed` with
/// `chrono::Duration::nanoseconds`. The claim is that of
/// [`chrono_add_millis`], for nanoseconds.
#[verifier::external_body]
fn chrono_add_nanos(secs: i64, nanos: u32, step: i64) -> (r: Option<(i64, u32)>)
    requires
        is_instant((secs as int, nanos as int)),
    ensures
        match r {
            Some((s, n)) => shifted((secs as int, nanos as int), step as int) == Some(
                (s as int, n as int),
            ),
            None => shifted((secs as int, nanos as int), step as int) is None,
        },
{
    let t = chrono::DateTime::<chrono::Utc>::from_timestamp(secs, nanos).unwrap();
    let sum = t.checked_add_signed(chrono::Duration::nanoseconds(step));
    sum.map(|u| (u.timestamp(), u.timestamp_subsec_nanos()))
}

/// Calls `chrono::DateTime::from_timestamp_nanos`. The claim: the instant lies
/// that many nanoseconds after the Unix epoch.
#[verifier::external_body]
fn chrono_from_nanos(n: i64) -> (r: (i64, u32))
    ensures
        (r.0 as int, r.1 as int) == from_nanos(n as int),
{
    let t = chrono::DateTime::from_timestamp_nanos(n);
    (t.timestamp(), t.timestamp_subsec_nanos())
}

/// Calls `chrono::DateTime::timestamp_nanos_opt`. The claim: the nanoseconds
/// since the Unix epoch, and `None` where they do not fit in 64 bits.
#[verifier::external_body]
fn chrono_nanos(secs: i64, nanos: u32) -> (r: Option<i64>)
    requires
        is_instant((secs as int, nanos as int)),
    ensures
        r == nanos_since_epoch((secs as int, nanos as int)),
{
    let t = chrono::DateTime::<chrono::Utc>::from_timestamp(secs, nanos).unwrap();
    t.timestamp_nanos_opt()
}

/// Calls `chrono::Utc::now`. Nothing is claimed of the present time but that it
/// is an instant.
#[verifier::external_body]
fn chrono_now() -> (r: (i64, u32))
    ensures
        is_instant((r.0 as int, r.1 as int)),
{
    let t = chrono::Utc::now();
    (t.timestamp(), t.timestamp_subsec_nanos())
}

/// Calls `chrono::DateTime::parse_from_rfc3339`. The claim: what it returns
/// depends on the text alone, and what it accepts is an instant.
#[verifier::external_body]
fn chrono_parse(text: &str) -> (r: Result<(i64, u32), String>)
    ensures
        match r {
            Ok((s, n)) => rfc3339(text@) == Ok::<(int, int), Seq<char>>((s as int, n as int))
                && is_instant((s as int, n as int)),
            Err(e) => rfc3339(text@) == Err::<(int, int), Seq<char>>(e@),
        },
{
    match chrono::DateTime::parse_from_rfc3339(text) {
        Ok(t) => Ok((t.timestamp(), t.timestamp_subsec_nanos())),
        Err(e) => Err(e.to_string()),
    }
}

/// Calls the `format` method of `chrono::DateTime<Utc>`. The claim: the text
/// depends on the instant and the format alone; in [`CLOCK_FORMAT`] it is
/// [`clock_text`], and in [`STAMP_FORMAT`] that behind the date.
#[verifier::external_body]
fn chrono_format(secs: i64, nanos: u32, format: &str) -> (r: String)
    requires
        is_instant((secs as int, nanos as int)),
        format@ == CLOCK_FORMAT@ || format@ == STAMP_FORMAT@,
    ensures
        r@ == formatted(secs as int, nanos as int, format@),
        format@ == CLOCK_FORMAT@ ==> r@ == clock_text((secs as int, nanos as int)),
        format@ == STAMP_FORMAT@ ==> r@ == formatted(secs as int, nanos as int, DATE_FORMAT@)
            + "T"@ + clock_text((secs as int, nanos as int)),
{
    let t = chrono::DateTime::<chrono::Utc>::from_timestamp(secs, nanos).unwrap();
    t.format(format).to_string()
}

/// An instant in UTC: whole seconds since the Unix epoch and nanoseconds within
/// the second.
#[derive(Debug, Clone, Copy, PartialEq, Eq, Structural)]
pub struct Timestamp {
    secs: i64,
    nanos: u32,
}

impl View for Timestamp {
    type V = (int, int);

    closed spec fn view(&self) -> (int, int) {
        (self.secs as int, self.nanos as int)
    }
}

impl Timestamp {
    #[verifier::type_invariant]
    pub(crate) open spec fn valid(self) -> bool {
        is_instant(self@)
    }

    /// The instant of the given seconds and nanoseconds, if there is one.
    pub fn new(secs: i64, nanos: u32) -> (r: Option<Timestamp>)
        ensures
            match r {
                Some(t) => t@ == (secs as int, nanos as int) && is_instant(t@),
                None => !is_instant((secs as int, nanos as int)),
            },
    {
        let in_leap_second = nanos >= SECOND;
        if secs < MIN_SECS || secs > MAX_SECS || nanos >= 2 * SECOND {
            return None;
        }
        if in_leap_second {
            let into_minute: i64 = (secs + 9_000_000_000_000) % 60;
            assert((secs + 9_000_000_000_000) % 60 == (secs as int) % 60);
            if into_minute != 59 {
                return None;
            }
        }
        Some(Timestamp { secs, nanos })
    }

    /// Seconds since the Unix epoch.
    pub fn seconds(&self) -> (r: i64)
        ensures
            r == self@.0,
    {
        self.secs
    }

    /// Nanoseconds within the second.
    pub fn subsec_nanos(&self) -> (r: u32)
        ensures
            r == self@.1,
    {
        self.nanos
    }

    /// Whether this instant lies after `other`.
    pub fn is_after(&self, other: &Timestamp) -> (r: bool)
        ensures
            r == precedes(other@, self@),
    {
        self.secs > other.secs || (self.secs == other.secs && self.nanos > other.nanos)
    }

    /// This instant moved by a number of milliseconds, if it stays within the
    /// time line.
    pub fn plus_millis(&self, millis: i64) -> (r: Option<Timestamp>)
        requires
            millis != i64::MIN,
        ensures
            match r {
                Some(t) => shifted(self@, millis * 1_000_000) == Some(t@),
                None => shifted(self@, millis * 1_000_000) is None,
            },
    {
        proof {
            use_type_invariant(self);
            lemma_moved_is_instant(self@, millis * 1_000_000);
        }
        match chrono_add_millis(self.secs, self.nanos, millis) {
            Some((secs, nanos)) => Some(Timestamp { secs, nanos }),
            None => None,
        }
    }

    /// The instant one nanosecond later, if it is within the time line.
    pub fn next(&self) -> (r: Option<Timestamp>)
        ensures
            match r {
                Some(t) => shifted(self@, 1) == Some(t@),
                None => shifted(self@, 1) is None,
            },
    {
        proof {
            use_type_invariant(self);
            lemma_moved_is_instant(self@, 1);
        }
        match chrono_add_nanos(self.secs, self.nanos, 1) {
            Some((secs, nanos)) => Some(Timestamp { secs, nanos }),
            None => None,
        }
    }

    /// The instant that lies `n` nanoseconds after the Unix epoch.
    pub fn from_epoch_nanos(n: i64) -> (r: Timestamp)
        ensures
            r@ == from_nanos(n as int),
            is_instant(r@),
    {
        let (secs, nanos) = chrono_from_nanos(n);
        Timestamp { secs, nanos }
    }

    /// Nanoseconds since the Unix epoch, where they fit in 64 bits.
    pub fn epoch_nanos(&self) -> (r: Option<i64>)
        ensures
            r == nanos_since_epoch(self@),
    {
        proof {
            use_type_invariant(self);
        }
        chrono_nanos(self.secs, self.nanos)
    }

    /// The present time.
    pub fn now() -> (r: Timestamp)
        ensures
            is_instant(r@),
    {
        let (secs, nanos) = chrono_now();
        Timestamp { secs, nanos }
    }

    /// The time of day, to the millisecond.
    pub fn clock(&self) -> (r: String)
        ensures
            r@ == clock_text(self@),
    {
        proof {
            use_type_invariant(self);
        }
        chrono_format(self.secs, self.nanos, CLOCK_FORMAT)
    }

    /// Date and time of day, to the millisecond.
    pub fn stamp(&self) -> (r: String)
        ensures
            r@ == formatted(self@.0, self@.1, STAMP_FORMAT@),
            r@ == formatted(self@.0, self@.1, DATE_FORMAT@) + "T"@ + clock_text(self@),
    {
        proof {
            use_type_invariant(self);
        }
        chrono_format(self.secs, self.nanos, STAMP_FORMAT)
    }
}

/// Moving an instant within the time line gives an instant.
pub proof fn lemma_moved_is_instant(t: (int, int), d: int)
    requires
        is_instant(t),
    ensures
        shifted(t, d) is Some ==> is_instant(moved(t, d)),
{
}

/// Moving an instant by a positive duration gives a later one.
pub proof fn law_moving_on_is_later(t: (int, int), d: int)
    requires
        is_instant(t),
        d > 0,
    ensures
        precedes(t, moved(t, d)),
        shifted(t, d) is Some ==> is_instant(moved(t, d)),
{
    lemma_moved_is_instant(t, d);
}

/// Of two instants one precedes the other, or they are the same; what precedes an
/// instant precedes all that follow it; and the order is that of the seconds, and
/// within a second that of the nanoseconds.
pub proof fn law_instants_are_ordered(a: (int, int), b: (int, int), c: (int, int))
    ensures
        precedes(a, b) || precedes(b, a) || a == b,
        !(precedes(a, b) && precedes(b, a)),
        precedes(a, b) && precedes(b, c) ==> precedes(a, c),
        precedes(a, b) <==> (if a.0 == b.0 {
            a.1 < b.1
        } else {
            a.0 < b.0
        }),
{
}

/// The words of a start time that could not be read.
pub open spec fn t0_error(reason: Seq<char>) -> Seq<char> {
    "invalid t0 timestamp: "@ + reason
}

/// The start time that follows from an attempt to read one: the instant, or an
/// error that gives the reason.
pub fn t0_from_parse(parsed: Result<Timestamp, String>) -> (r: Result<Timestamp, String>)
    ensures
        match parsed {
            Ok(t) => r == Ok::<Timestamp, String>(t),
            Err(reason) => r is Err && r->Err_0@ == t0_error(reason@),
        },
{
    match parsed {
        Ok(t) => Ok(t),
        Err(reason) => {
            let prefix = "invalid t0 timestamp: ".to_owned();
            Err(prefix.concat(reason.as_str()))
        },
    }
}

/// Reads a start time: `now`, or an RFC 3339 timestamp.
pub fn parse_t0(s: &str) -> (r: Result<Timestamp, String>)
    ensures
        s@ == "now"@ ==> r is Ok && is_instant(r->Ok_0@),
        s@ != "now"@ ==> match rfc3339(s@) {
            Ok(t) => r is Ok && r->Ok_0@ == t,
            Err(reason) => r is Err && r->Err_0@ == t0_error(reason),
        },
{
    if same_text(s, "now") {
        return Ok(Timestamp::now());
    }
    let parsed = match chrono_parse(s) {
        Ok((secs, nanos)) => Ok(Timestamp { secs, nanos }),
        Err(reason) => Err(reason),
    };
    t0_from_parse(parsed)
}

/// Outside leap seconds instants lie on a line: moving one adds to its distance
/// from the epoch, the order is that of the distances, and steps add up.
pub proof fn law_time_line(a: (int, int), b: (int, int), d: int, e: int)
    requires
        0 <= a.1 < SECOND,
        0 <= b.1 < SECOND,
    ensures
        moved(a, d).0 * SECOND + moved(a, d).1 == a.0 * SECOND + a.1 + d,
        0 <= moved(a, d).1 < SECOND,
        moved(moved(a, d), e) == moved(a, d + e),
        precedes(a, b) <==> a.0 * SECOND + a.1 < b.0 * SECOND + b.1,
        from_nanos(a.0 * SECOND + a.1) == a,
        nanos_since_epoch(a) is Some ==> nanos_since_epoch(a)->Some_0 == a.0 * SECOND + a.1,
        nanos_since_epoch(a) is None ==> !(i64::MIN <= a.0 * SECOND + a.1 <= i64::MAX),
{
}

/// An instant can be moved exactly as far as the result is within the time line.
pub proof fn law_shifted(t: (int, int), d: int)
    requires
        0 <= t.1 < SECOND,
    ensures
        shifted(t, d) is Some <==> MIN_SECS * SECOND <= t.0 * SECOND + t.1 + d < (MAX_SECS + 1)
            * SECOND,
        shifted(t, d) matches Some(u) ==> u.0 * SECOND + u.1 == t.0 * SECOND + t.1 + d && 0 <= u.1
            < SECOND,
{
}

/// The hours, minutes, seconds and milliseconds of a clock time are written with
/// two, two, two and three digits, and are together the time of day.
pub proof fn law_clock_text(t: (int, int))
    requires
        is_instant(t),
    ensures
        ({
            let c = clock_text(t);
            let d = |i: int| c[i] as int - '0' as int;
            &&& c.len() == 13
            &&& c[2] == ':' && c[5] == ':' && c[8] == '.' && c[12] == 'Z'
            &&& forall|i: int|
                0 <= i < 12 && i != 2 && i != 5 && i != 8 ==> '0' <= #[trigger] c[i] <= '9'
            &&& 10 * d(0) + d(1) < 24 && 10 * d(3) + d(4) < 60
            &&& 10 * d(6) + d(7) < (if t.1 < SECOND {
                60int
            } else {
                61int
            })
            &&& (10 * d(0) + d(1)) * 3_600 + (10 * d(3) + d(4)) * 60 + 10 * d(6) + d(7) == t.0 % 86_400
                + t.1 / (SECOND as int)
            &&& 100 * d(9) + 10 * d(10) + d(11) == (t.1 % (SECOND as int)) / 1_000_000
        }),
{
    let day = t.0 % 86_400;
    let millis = (t.1 / 1_000_000) % 1_000;
    let c = clock_text(t);
    assert(c =~= seq![
        digit((day / 3_600) / 10),
        digit((day / 3_600) % 10),
        ':',
        digit(((day / 60) % 60) / 10),
        digit(((day / 60) % 60) % 10),
        ':',
        digit((day % 60 + t.1 / (SECOND as int)) / 10),
        digit((day % 60 + t.1 / (SECOND as int)) % 10),
        '.',
        digit(millis / 100),
        digit((millis % 100) / 10),
        digit((millis % 100) % 10),
        'Z',
    ]);
}

/// An error about a start time gives its reason in full.
pub proof fn law_t0_error(reason: Seq<char>)
    ensures
        t0_error(reason) == "invalid t0 timestamp: "@ + reason,
{
}

} // verus!

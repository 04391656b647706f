//! Points in time, as object storage and file systems report them.
use vstd::prelude::*;

use chrono::{DateTime, Utc};

verus! {

/// Nanoseconds in a second.
pub const SECOND: i128 = 1_000_000_000;

/// The first second of the calendar, in seconds from the Unix epoch.
pub const FIRST_SECOND: i64 = -8_334_601_228_800;

/// The last second of the calendar, in seconds from the Unix epoch.
pub const LAST_SECOND: i64 = 8_210_266_876_799;

/// The RFC 3339 text that `chrono` writes for the instant `instant` nanoseconds after the
/// Unix epoch, in UTC.
pub uninterp spec fn rfc3339(instant: int) -> Seq<char>;

/// Whether the calendar holds the second `secs`.
pub open spec fn in_calendar(secs: int) -> bool {
    FIRST_SECOND <= secs <= LAST_SECOND
}

/// A point in time, in UTC.
#[derive(Clone, Copy)]
pub struct Timestamp {
    secs: i64,
    nanos: u32,
}

/// The whole seconds in a span of nanoseconds, rounded toward zero.
pub open spec fn whole_seconds(span: int) -> int {
    if span >= 0 {
        span / (SECOND as int)
    } else {
        -((-span) / (SECOND as int))
    }
}

/// The instant that a storage service means by `nanos` nanoseconds after the epoch: a
/// negative time with a fraction of a second, or one outside the calendar, counts as the
/// epoch itself.
pub open spec fn service_instant(nanos: int) -> int {
    if (nanos < 0 && nanos % (SECOND as int) != 0) || !in_calendar(nanos / (SECOND as int)) {
        0
    } else {
        nanos
    }
}

/// The modification time that is recorded for an instant: nanoseconds after the epoch in 64
/// bits, zero before it.
pub open spec fn recorded_mtime(modified: Option<int>) -> i64 {
    match modified {
        Some(instant) if instant >= 0 => instant as i64,
        _ => 0,
    }
}

/// `chrono::DateTime::<Utc>::from_timestamp`, taken apart again by `timestamp` and
/// `timestamp_subsec_nanos`.
///
/// It yields a time exactly when the calendar holds the second and the nanoseconds are below
/// one second, or below two in the last second of a minute (a leap second); the parts of that
/// time are the arguments.
#[verifier::external_body]
fn utc_parts(secs: i64, nanos: u32) -> (parts: Option<(i64, u32)>)
    ensures
        parts == (if in_calendar(secs as int) && (nanos < 1_000_000_000 || (nanos < 2_000_000_000
            && (secs as int) % 60 == 59)) {
            Some((secs, nanos))
        } else {
            None
        }),
{
    DateTime::<Utc>::from_timestamp(secs, nanos).map(
        |time| (time.timestamp(), time.timestamp_subsec_nanos()),
    )
}

/// `chrono::DateTime::<Utc>::to_rfc3339`, on the time with these parts.
///
/// The text depends on the instant alone.
#[verifier::external_body]
fn utc_rfc3339(secs: i64, nanos: u32) -> (text: String)
    requires
        in_calendar(secs as int),
        nanos < 1_000_000_000,
    ensures
        text@ == rfc3339(secs * SECOND + nanos),
{
    DateTime::<Utc>::from_timestamp(secs, nanos).unwrap().to_rfc3339()
}

impl View for Timestamp {
    type V = int;

    /// Nanoseconds after the Unix epoch.
    closed spec fn view(&self) -> int {
        self.secs * SECOND + self.nanos
    }
}

impl Timestamp {
    #[verifier::type_invariant]
    spec fn valid(self) -> bool {
        self.nanos < 1_000_000_000 && in_calendar(self.secs as int)
    }

    /// The time `secs` seconds and `nanos` nanoseconds after the epoch, if the calendar holds
    /// it and the nanoseconds are below one second.
    pub fn from_parts(secs: i64, nanos: u32) -> (time: Option<Timestamp>)
        ensures
            time is Some <==> in_calendar(secs as int) && nanos < 1_000_000_000,
            time matches Some(t) ==> t@ == secs * SECOND + nanos,
    {
        match utc_parts(secs, nanos) {
            Some((s, n)) => {
                if n < 1_000_000_000 {
                    Some(Timestamp { secs: s, nanos: n })
                } else {
                    None
                }
            },
            None => None,
        }
    }

    /// The time `secs` seconds and `nanos` nanoseconds after the epoch, or before it, if the
    /// calendar holds it and the nanoseconds are below one second.
    pub fn from_span(before: bool, secs: u64, nanos: u32) -> (time: Option<Timestamp>)
        ensures
            ({
                let span = secs * SECOND + nanos;
                let instant = if before {
                    -span
                } else {
                    span
                };
                match time {
                    Some(t) => nanos < 1_000_000_000 && t@ == instant,
                    None => nanos >= 1_000_000_000 || !in_calendar(instant / (SECOND as int)),
                }
            }),
    {
        if nanos >= 1_000_000_000 || secs > 9_000_000_000_000 {
            return None;
        }
        let whole: i64 = secs as i64;
        if !before {
            Timestamp::from_parts(whole, nanos)
        } else if nanos == 0 {
            Timestamp::from_parts(0 - whole, 0)
        } else {
            Timestamp::from_parts(-1 - whole, 1_000_000_000 - nanos)
        }
    }

    /// The Unix epoch.
    pub fn epoch() -> (time: Timestamp)
        ensures
            time@ == 0,
    {
        Timestamp { secs: 0, nanos: 0 }
    }

    /// The time that a storage service reports as `nanos` nanoseconds after the epoch.
    pub fn from_service(nanos: i128) -> (time: Timestamp)
        ensures
            time@ == service_instant(nanos as int),
    {
        if nanos < 0 {
            if nanos < FIRST_SECOND as i128 * SECOND {
                return Timestamp::epoch();
            }
            let back: i128 = 0 - nanos;
            if back % SECOND != 0 {
                return Timestamp::epoch();
            }
            let secs: i64 = 0 - (back / SECOND) as i64;
            assert(secs as int * 1_000_000_000 == nanos);
            match Timestamp::from_parts(secs, 0) {
                Some(time) => time,
                None => Timestamp::epoch(),
            }
        } else {
            if nanos / SECOND > LAST_SECOND as i128 {
                return Timestamp::epoch();
            }
            match Timestamp::from_parts((nanos / SECOND) as i64, (nanos % SECOND) as u32) {
                Some(time) => time,
                None => Timestamp::epoch(),
            }
        }
    }

    /// Whether this time comes after `other`.
    pub fn is_after(&self, other: &Timestamp) -> (after: bool)
        ensures
            after == (self@ > other@),
    {
        proof {
            use_type_invariant(self);
            use_type_invariant(other);
        }
        self.secs > other.secs || (self.secs == other.secs && self.nanos > other.nanos)
    }

    /// How many whole seconds this time comes after `other`, rounded toward zero.
    pub fn seconds_after(&self, other: &Timestamp) -> (seconds: i64)
        ensures
            seconds == whole_seconds(self@ - other@),
    {
        proof {
            use_type_invariant(self);
            use_type_invariant(other);
        }
        let seconds: i64 = self.secs - other.secs;
        if seconds > 0 && self.nanos < other.nanos {
            seconds - 1
        } else if seconds < 0 && self.nanos > other.nanos {
            seconds + 1
        } else {
            seconds
        }
    }

    /// Nanoseconds after the epoch, if they fit in 64 bits.
    pub fn unix_nanos(&self) -> (nanos: Option<i64>)
        ensures
            nanos == (if i64::MIN <= self@ <= i64::MAX {
                Some(self@ as i64)
            } else {
                None
            }),
    {
        proof {
            use_type_invariant(self);
        }
        let nanos: i128 = self.secs as i128 * SECOND + self.nanos as i128;
        if i64::MIN as i128 <= nanos && nanos <= i64::MAX as i128 {
            Some(nanos as i64)
        } else {
            None
        }
    }

    /// The RFC 3339 text of this time.
    pub fn to_rfc3339(&self) -> (text: String)
        ensures
            text@ == rfc3339(self@),
    {
        proof {
            use_type_invariant(self);
        }
        utc_rfc3339(self.secs, self.nanos)
    }

    /// The modification time that is recorded for this time.
    pub fn mtime(&self) -> (mtime: i64)
        ensures
            mtime == recorded_mtime(Some(self@)),
    {
        proof {
            use_type_invariant(self);
        }
        if self.secs < 0 {
            0
        } else {
            let nanos: u128 = self.secs as u128 * 1_000_000_000 + self.nanos as u128;
            #[verifier::truncate]
            (nanos as i64)
        }
    }
}

/// The whole seconds and the rest in nanoseconds with which a file's modification time is set
/// to `unix` nanoseconds after the epoch. Before the epoch the rest wraps around 32 bits.
pub open spec fn mtime_parts(unix: int) -> (int, u32) {
    if unix >= 0 {
        (unix / (SECOND as int), (unix % (SECOND as int)) as u32)
    } else {
        (-((-unix) / (SECOND as int)), (-((-unix) % (SECOND as int))) as u32)
    }
}

/// The parts with which a downloaded file's modification time is set to the object's own.
pub fn file_time_parts(last_modified: &Timestamp) -> (parts: (i64, u32))
    ensures
        ({
            let unix = if i64::MIN <= last_modified@ <= i64::MAX {
                last_modified@
            } else {
                0
            };
            (parts.0 as int, parts.1) == mtime_parts(unix)
        }),
{
    let unix: i64 = match last_modified.unix_nanos() {
        Some(nanos) => nanos,
        None => 0,
    };
    if unix >= 0 {
        (unix / 1_000_000_000, (unix % 1_000_000_000) as u32)
    } else {
        let back: i128 = 0 - unix as i128;
        let rest: i64 = 0 - (back % SECOND) as i64;
        let wrapped: u32 = #[verifier::truncate]
        (rest as u32);
        (0 - (back / SECOND) as i64, wrapped)
    }
}

/// A time from the epoch on survives being set on a file: the parts make it up again.
pub proof fn law_file_time_roundtrip(unix: int)
    requires
        unix >= 0,
    ensures
        mtime_parts(unix).0 * SECOND + mtime_parts(unix).1 == unix,
{
}

/// The whole seconds of a span leave less than one second of it, on the same side of zero.
pub proof fn law_whole_seconds_leave_less_than_one(span: int)
    ensures
        span >= 0 ==> 0 <= span - whole_seconds(span) * 1_000_000_000 < 1_000_000_000,
        span <= 0 ==> -1_000_000_000 < span - whole_seconds(span) * 1_000_000_000 <= 0,
        whole_seconds(span) > 0 <==> span >= 1_000_000_000,
        whole_seconds(span) < 0 <==> span <= -1_000_000_000,
        whole_seconds(-span) == -whole_seconds(span),
{
}

/// A service's time counts as it is, or as the epoch: as it is from the epoch on to the end of
/// the calendar, and before the epoch where it is a whole second of the calendar.
pub proof fn law_service_time_counts_as_it_is(nanos: int)
    ensures
        0 <= nanos < (8_210_266_876_799 + 1) * 1_000_000_000 ==> service_instant(nanos) == nanos,
        nanos >= (8_210_266_876_799 + 1) * 1_000_000_000 ==> service_instant(nanos) == 0,
        -8_334_601_228_800 * 1_000_000_000 <= nanos < 0 && nanos % 1_000_000_000 == 0
            ==> service_instant(nanos) == nanos,
        nanos < -8_334_601_228_800 * 1_000_000_000 ==> service_instant(nanos) == 0,
        nanos < 0 && nanos % 1_000_000_000 != 0 ==> service_instant(nanos) == 0,
{
}

/// A modification time that is known, from the epoch on and in 64 bits, is recorded as it is, so
/// that two such times are recorded alike only if they are the same; what is not known, or lies
/// before the epoch, is recorded as zero.
pub proof fn law_recorded_time_tells_times_apart(a: int, b: int)
    ensures
        0 <= a <= i64::MAX ==> recorded_mtime(Some(a)) == a,
        0 <= a <= i64::MAX && 0 <= b <= i64::MAX && a != b ==> recorded_mtime(Some(a))
            != recorded_mtime(Some(b)),
        a < 0 ==> recorded_mtime(Some(a)) == 0,
        recorded_mtime(None) == 0,
{
}

/// Before the epoch the whole seconds with which a file's time is set are rounded toward it.
pub proof fn law_file_time_before_the_epoch(unix: int)
    requires
        i64::MIN <= unix < 0,
    ensures
        unix <= mtime_parts(unix).0 * 1_000_000_000 < unix + 1_000_000_000,
        unix % 1_000_000_000 == 0 ==> mtime_parts(unix).0 * 1_000_000_000 == unix
            && mtime_parts(unix).1 == 0,
{
}

} // verus!

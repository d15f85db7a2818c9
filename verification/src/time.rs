//! Millisecond timestamps, spans between them, and the calendar arithmetic
//! used to read and write them in RFC 3339 form.
//!
//! All packet ordering and event-log queries are expressed in unix
//! milliseconds.  A [`Timespan`] is a closed-open window `[start, end)`.
use vstd::prelude::*;
use vstd::math::abs;
use crate::err::{Error, Result};

verus! {

/// Milliseconds between the unix epoch and the first instant of year 10000,
/// the first timestamp that cannot be written with a four-digit year.
pub const ISO_YEAR_LIMIT_MS: u64 = 253402300800000;

/// A span of time with millisecond resolution, the unit of every deadline
/// and lookback window in the core.
#[derive(Debug, Clone, Copy, PartialEq, Eq, Structural)]
pub struct Duration {
    millis: u128,
}

impl Duration {
    /// The stored length in milliseconds.
    pub closed spec fn spec_millis(self) -> int {
        self.millis as int
    }

    /// Every constructor keeps the length under this bound, so whole-unit
    /// conversions below fit in `u64`.
    pub closed spec fn wf(self) -> bool {
        self.millis <= u64::MAX as u128 * 1000 + 999
    }

    pub fn from_millis(millis: u64) -> (r: Duration)
        ensures
            r.spec_millis() == millis as int,
            r.wf(),
    {
        Duration { millis: millis as u128 }
    }

    pub fn from_secs(secs: u64) -> (r: Duration)
        ensures
            r.spec_millis() == secs as int * 1000,
            r.wf(),
    {
        Duration { millis: secs as u128 * 1000 }
    }

    /// Whole days, each of 86 400 seconds.
    pub fn from_days(days: u32) -> (r: Duration)
        ensures
            r.spec_millis() == days as int * 86400000,
            r.wf(),
    {
        Duration { millis: days as u128 * 86400000 }
    }

    pub fn as_millis(&self) -> (r: u128)
        ensures
            r as int == self.spec_millis(),
    {
        self.millis
    }

    pub fn as_secs(&self) -> (r: u64)
        requires
            self.wf(),
        ensures
            r as int == self.spec_millis() / 1000,
    {
        (self.millis / 1000) as u64
    }

    /// How many whole days this span covers.
    pub fn whole_days(&self) -> (r: u64)
        requires
            self.wf(),
        ensures
            r as int == self.spec_millis() / 1000 / 86400,
    {
        self.as_secs() / 86400
    }
}

/// A wall-clock instant in unix milliseconds.  Totally ordered; the worker
/// stamps every accepted packet with one of these.
#[derive(Debug, Clone, Copy, PartialEq, Eq, PartialOrd, Ord, Structural)]
pub struct Timestamp {
    unix_millis: u64,
}

impl View for Timestamp {
    type V = int;

    closed spec fn view(&self) -> int {
        self.unix_millis as int
    }
}

/// Relies on `std::time::SystemTime::now` and
/// `SystemTime::duration_since(UNIX_EPOCH)` for the wall clock reading; the
/// result depends on the machine's clock, so nothing is promised of it.
#[verifier::external_body]
fn unix_millis_now() -> u64 {
    let t = std::time::SystemTime::now()
        .duration_since(std::time::UNIX_EPOCH)
        .unwrap();
    t.as_millis() as u64
}

impl Timestamp {
    /// The current wall-clock time.
    pub fn now() -> Timestamp {
        Timestamp { unix_millis: unix_millis_now() }
    }

    pub fn from_unix_millis(unix_millis: u64) -> (r: Timestamp)
        ensures
            r@ == unix_millis as int,
    {
        Timestamp { unix_millis }
    }

    pub fn as_unix_millis(&self) -> (r: u64)
        ensures
            r as int == self@,
    {
        self.unix_millis
    }

    /// Whether this instant falls inside the span.
    pub fn intersects(&self, span: Timespan) -> (r: bool)
        ensures
            r == (span.start_ms() <= self@ < span.end_ms()),
    {
        span.includes(*self)
    }

    /// The unsigned distance between two instants.
    pub fn millis_between(self, rhs: Timestamp) -> (r: u64)
        ensures
            r as int == abs(self@ - rhs@),
    {
        if self.unix_millis >= rhs.unix_millis {
            self.unix_millis - rhs.unix_millis
        } else {
            rhs.unix_millis - self.unix_millis
        }
    }

    /// The unsigned distance between two instants, as a span of time.
    pub fn duration_between(self, rhs: Timestamp) -> (r: Duration)
        ensures
            r.spec_millis() == abs(self@ - rhs@),
            r.wf(),
    {
        Duration::from_millis(self.millis_between(rhs))
    }

    /// Moves forward, failing when the result leaves the representable range.
    pub fn add(self, rhs: Duration) -> (r: Result<Timestamp>)
        ensures
            self@ + rhs.spec_millis() <= u64::MAX ==> (r matches Ok(t)
                && t@ == self@ + rhs.spec_millis()),
            self@ + rhs.spec_millis() > u64::MAX ==> (r matches Err(e)
                && e is OutOfRange),
    {
        let from: u64 = self.unix_millis;
        let diff: u128 = rhs.as_millis();
        if diff > (u64::MAX - from) as u128 {
            Err(Error::OutOfRange { msg: "timestamp addition overflows".to_owned() })
        } else {
            Ok(Timestamp::from_unix_millis(from + diff as u64))
        }
    }

    /// Moves forward, stopping at the end of the representable range.
    pub fn saturating_add(self, rhs: Duration) -> (r: Timestamp)
        ensures
            r@ == if self@ + rhs.spec_millis() <= u64::MAX {
                self@ + rhs.spec_millis()
            } else {
                u64::MAX as int
            },
    {
        let from: u64 = self.unix_millis;
        let diff: u128 = rhs.as_millis();
        if diff > (u64::MAX - from) as u128 {
            Timestamp { unix_millis: u64::MAX }
        } else {
            Timestamp::from_unix_millis(from + diff as u64)
        }
    }

    /// Moves backward, failing when the result would precede the epoch.
    pub fn sub(self, rhs: Duration) -> (r: Result<Timestamp>)
        ensures
            rhs.spec_millis() <= self@ ==> (r matches Ok(t)
                && t@ == self@ - rhs.spec_millis()),
            rhs.spec_millis() > self@ ==> (r matches Err(e)
                && e is OutOfRange),
    {
        let from: u64 = self.unix_millis;
        let diff: u128 = rhs.as_millis();
        if diff > from as u128 {
            Err(Error::OutOfRange { msg: "timestamp subtraction underflows".to_owned() })
        } else {
            Ok(Timestamp::from_unix_millis(from - diff as u64))
        }
    }

    /// Moves backward, stopping at the epoch.
    pub fn saturating_sub(self, rhs: Duration) -> (r: Timestamp)
        ensures
            r@ == if rhs.spec_millis() <= self@ {
                self@ - rhs.spec_millis()
            } else {
                0
            },
    {
        let from: u64 = self.unix_millis;
        let diff: u128 = rhs.as_millis();
        if diff > from as u128 {
            Timestamp { unix_millis: 0 }
        } else {
            Timestamp::from_unix_millis(from - diff as u64)
        }
    }

    /// The earlier of two instants.
    pub fn min(self, rhs: Timestamp) -> (r: Timestamp)
        ensures
            r@ == if self@ <= rhs@ { self@ } else { rhs@ },
    {
        if self.unix_millis <= rhs.unix_millis {
            self
        } else {
            rhs
        }
    }

    /// The later of two instants.
    pub fn max(self, rhs: Timestamp) -> (r: Timestamp)
        ensures
            r@ == if self@ >= rhs@ { self@ } else { rhs@ },
    {
        if self.unix_millis > rhs.unix_millis {
            self
        } else {
            rhs
        }
    }

    /// Builds an instant from calendar components read in the given
    /// whole-hour UTC offset.  Rejects offsets outside the clock dial,
    /// calendar components outside their ranges, years a four-digit field
    /// cannot hold, and instants before the epoch.
    pub fn from_calendar_and_offset(
        year: u16,
        month: u8,
        day: u8,
        hour: u8,
        minute: u8,
        second: u8,
        utc_offset_hrs: i8,
    ) -> (r: Result<Timestamp>)
        ensures
            !(-25 <= utc_offset_hrs <= 25) ==> (r matches Err(e) && e is Other),
            -25 <= utc_offset_hrs <= 25 && !valid_calendar(
                year as int,
                month as int,
                day as int,
                hour as int,
                minute as int,
                second as int,
            ) ==> (r matches Err(e) && e is TimeOutOfRange),
            -25 <= utc_offset_hrs <= 25 && valid_calendar(
                year as int,
                month as int,
                day as int,
                hour as int,
                minute as int,
                second as int,
            ) ==> {
                let ms = calendar_and_offset_ms(
                    year as int,
                    month as int,
                    day as int,
                    hour as int,
                    minute as int,
                    second as int,
                    utc_offset_hrs as int,
                );
                if ms >= 0 {
                    r matches Ok(t) && t@ == ms
                } else {
                    r matches Err(e) && e is TimeOutOfRange
                }
            },
    {
        if utc_offset_hrs < -25 || utc_offset_hrs > 25 {
            return Err(Error::Other("bad UTC offset".to_owned()));
        }
        if month < 1 || month > 12 {
            return Err(Error::TimeOutOfRange("invalid month".to_owned()));
        }
        if year > 9999 {
            return Err(Error::TimeOutOfRange("invalid year".to_owned()));
        }
        if day < 1 || day > days_in_month_of(year, month) {
            return Err(Error::TimeOutOfRange("invalid day".to_owned()));
        }
        if hour > 23 {
            return Err(Error::TimeOutOfRange("invalid hour".to_owned()));
        }
        if minute > 59 {
            return Err(Error::TimeOutOfRange("invalid minute".to_owned()));
        }
        if second > 59 {
            return Err(Error::TimeOutOfRange("invalid second".to_owned()));
        }
        let days: i64 = days_from_civil_i(year, month, day);
        let secs: i64 = days * 86400 + hour as i64 * 3600 + minute as i64 * 60 + second as i64
            - utc_offset_hrs as i64 * 3600;
        if secs < 0 {
            Err(Error::TimeOutOfRange("before the epoch".to_owned()))
        } else {
            Ok(Timestamp::from_unix_millis(secs as u64 * 1000))
        }
    }

    /// Calendar components read as Pacific daylight time.
    pub fn from_calendar_pdt(
        year: u16,
        month: u8,
        day: u8,
        hour: u8,
        minute: u8,
        second: u8,
    ) -> (r: Result<Timestamp>)
        ensures
            !valid_calendar(
                year as int,
                month as int,
                day as int,
                hour as int,
                minute as int,
                second as int,
            ) ==> (r matches Err(e) && e is TimeOutOfRange),
            valid_calendar(
                year as int,
                month as int,
                day as int,
                hour as int,
                minute as int,
                second as int,
            ) ==> {
                let ms = calendar_and_offset_ms(
                    year as int,
                    month as int,
                    day as int,
                    hour as int,
                    minute as int,
                    second as int,
                    -7,
                );
                if ms >= 0 {
                    r matches Ok(t) && t@ == ms
                } else {
                    r matches Err(e) && e is TimeOutOfRange
                }
            },
    {
        Self::from_calendar_and_offset(year, month, day, hour, minute, second, -7)
    }

    /// Calendar components read as UTC.
    pub fn from_calendar_utc(
        year: u16,
        month: u8,
        day: u8,
        hour: u8,
        minute: u8,
        second: u8,
    ) -> (r: Result<Timestamp>)
        ensures
            !valid_calendar(
                year as int,
                month as int,
                day as int,
                hour as int,
                minute as int,
                second as int,
            ) ==> (r matches Err(e) && e is TimeOutOfRange),
            valid_calendar(
                year as int,
                month as int,
                day as int,
                hour as int,
                minute as int,
                second as int,
            ) ==> {
                let ms = calendar_and_offset_ms(
                    year as int,
                    month as int,
                    day as int,
                    hour as int,
                    minute as int,
                    second as int,
                    0,
                );
                if ms >= 0 {
                    r matches Ok(t) && t@ == ms
                } else {
                    r matches Err(e) && e is TimeOutOfRange
                }
            },
    {
        Self::from_calendar_and_offset(year, month, day, hour, minute, second, 0)
    }

    /// The calendar year this instant falls in, read in UTC.
    pub fn year(&self) -> (r: u16)
        requires
            self@ < ISO_YEAR_LIMIT_MS,
        ensures
            r as int == civil_from_days(self@ / 86400000).0,
    {
        let days: u64 = self.unix_millis / 86400000;
        proof {
            assert(days <= 2932896) by (nonlinear_arith)
                requires
                    days == self.unix_millis as int / 86400000 && self.unix_millis
                        < 253402300800000,
            ;
        }
        let (y, _m, _d) = civil_from_days_u(days);
        y
    }

    /// The UTC calendar decomposition `(year, month, day, hour, minute,
    /// second)` of this instant.
    pub fn to_calendar_utc(&self) -> (r: (u16, u8, u8, u8, u8, u8))
        requires
            self@ < ISO_YEAR_LIMIT_MS,
        ensures
            r.0 as int == civil_from_days(self@ / 86400000).0,
            r.1 as int == civil_from_days(self@ / 86400000).1,
            r.2 as int == civil_from_days(self@ / 86400000).2,
            r.3 as int == (self@ / 1000) % 86400 / 3600,
            r.4 as int == (self@ / 1000) % 86400 % 3600 / 60,
            r.5 as int == (self@ / 1000) % 86400 % 60,
    {
        let ms = self.unix_millis;
        let days: u64 = ms / 86400000;
        proof {
            assert(days <= 2932896) by (nonlinear_arith)
                requires
                    days == ms as int / 86400000 && ms < 253402300800000,
            ;
        }
        let (y, mo, d) = civil_from_days_u(days);
        let sod: u64 = (ms / 1000) % 86400;
        let h = (sod / 3600) as u8;
        let mi = (sod % 3600 / 60) as u8;
        let s = (sod % 60) as u8;
        (y, mo, d, h, mi, s)
    }

    /// Re-reads the instant under another whole-hour offset.  The unix
    /// timestamp does not change; offsets off the dial are rejected.
    pub fn to_offset_hrs(&self, hrs: i8) -> (r: Result<Timestamp>)
        requires
            self@ < ISO_YEAR_LIMIT_MS,
        ensures
            -25 <= hrs <= 25 ==> (r matches Ok(t) && t@ == self@),
            !(-25 <= hrs <= 25) ==> (r matches Err(e) && e is Other),
    {
        if hrs < -25 || hrs > 25 {
            Err(Error::Other("bad UTC offset".to_owned()))
        } else {
            Ok(*self)
        }
    }

    /// This instant written in RFC 3339 form in UTC, with a four-digit
    /// year, trailing zeros of the millisecond fraction trimmed, and a
    /// `Z` suffix.
    pub fn to_iso_string_utc(&self) -> (r: String)
        requires
            self@ < ISO_YEAR_LIMIT_MS,
        ensures
            r@ == iso_utc_seq(self@),
    {
        let ms = self.unix_millis;
        let days: u64 = ms / 86400000;
        proof {
            assert(days <= 2932896) by (nonlinear_arith)
                requires
                    days == ms as int / 86400000 && ms < 253402300800000,
            ;
        }
        let (y, mo, d) = civil_from_days_u(days);
        let sod: u64 = (ms / 1000) % 86400;
        let h = (sod / 3600) as u8;
        let mi = (sod % 3600 / 60) as u8;
        let s = (sod % 60) as u8;
        let mut out = String::new();
        push_4digits(&mut out, y);
        proof {
            reveal_strlit("-");
            reveal_strlit("T");
            reveal_strlit(":");
            reveal_strlit(".");
            reveal_strlit("Z");
        }
        out.append("-");
        push_2digits(&mut out, mo);
        out.append("-");
        push_2digits(&mut out, d);
        out.append("T");
        push_2digits(&mut out, h);
        out.append(":");
        push_2digits(&mut out, mi);
        out.append(":");
        push_2digits(&mut out, s);
        let frac = (ms % 1000) as u16;
        let d1 = (frac / 100) as u8;
        let d2 = (frac / 10 % 10) as u8;
        let d3 = (frac % 10) as u8;
        if frac != 0 {
            out.append(".");
            push_digit(&mut out, d1);
            if d2 != 0 || d3 != 0 {
                push_digit(&mut out, d2);
                if d3 != 0 {
                    push_digit(&mut out, d3);
                }
            }
        }
        out.append("Z");
        proof {
            assert(frac as int / 100 % 10 == frac as int / 100) by (nonlinear_arith)
                requires
                    frac < 1000,
            ;
            assert(out@ =~= iso_utc_seq(self@));
        }
        out
    }

    /// Reads an RFC 3339 timestamp: the fixed `YYYY-MM-DDThh:mm:ss` part,
    /// an optional fraction of one to nine digits, and a `Z` or `±hh:mm`
    /// offset.  Instants before the epoch are out of range; text the
    /// grammar rejects is a parse failure.
    #[verifier::rlimit(100)]
    pub fn from_iso_string(s: &str) -> (r: Result<Timestamp>)
        ensures
            match iso_parse(s@) {
                Option::None => r matches Err(e) && e is Other,
                Option::Some(v) => if v < 0 {
                    r matches Err(e) && e is TimeOutOfRange
                } else {
                    r matches Ok(t) && t@ == v
                },
            },
    {
        let n = s.unicode_len();
        if n < 19 {
            return Err(Error::msg("can't parse ISO-8601 time"));
        }
        let y: u16 = match (digit_at(s, 0), digit_at(s, 1), digit_at(s, 2), digit_at(s, 3)) {
            (Some(a), Some(b), Some(c), Some(dd)) => a as u16 * 1000 + b as u16 * 100 + c as u16
                * 10 + dd as u16,
            _ => {
                return Err(Error::msg("can't parse ISO-8601 time"));
            },
        };
        if s.get_char(4) != '-' {
            return Err(Error::msg("can't parse ISO-8601 time"));
        }
        let mo: u8 = match two_digits_at(s, 5) {
            Some(v) => v,
            None => {
                return Err(Error::msg("can't parse ISO-8601 time"));
            },
        };
        if s.get_char(7) != '-' {
            return Err(Error::msg("can't parse ISO-8601 time"));
        }
        let d: u8 = match two_digits_at(s, 8) {
            Some(v) => v,
            None => {
                return Err(Error::msg("can't parse ISO-8601 time"));
            },
        };
        let c10 = s.get_char(10);
        if !(c10 == 'T' || c10 == 't') {
            return Err(Error::msg("can't parse ISO-8601 time"));
        }
        let h: u8 = match two_digits_at(s, 11) {
            Some(v) => v,
            None => {
                return Err(Error::msg("can't parse ISO-8601 time"));
            },
        };
        if s.get_char(13) != ':' {
            return Err(Error::msg("can't parse ISO-8601 time"));
        }
        let mi: u8 = match two_digits_at(s, 14) {
            Some(v) => v,
            None => {
                return Err(Error::msg("can't parse ISO-8601 time"));
            },
        };
        if s.get_char(16) != ':' {
            return Err(Error::msg("can't parse ISO-8601 time"));
        }
        let sec: u8 = match two_digits_at(s, 17) {
            Some(v) => v,
            None => {
                return Err(Error::msg("can't parse ISO-8601 time"));
            },
        };
        if mo < 1 || mo > 12 || d < 1 || d > 31 || h > 23 || mi > 59 || sec > 59 {
            return Err(Error::msg("can't parse ISO-8601 time"));
        }
        let ghost tail = s@.subrange(19, s@.len() as int);
        let mut frac: u16 = 0;
        let mut ri: usize = 19;
        let has_frac = n > 19 && s.get_char(19) == '.';
        if has_frac {
            let ghost frdigits = s@.subrange(20, s@.len() as int);
            let mut k: usize = 0;
            loop
                invariant
                    20 <= 20 + k <= n,
                    n == s@.len(),
                    n >= 20,
                    forall|j: int| 0 <= j < k ==> is_digit(#[trigger] s@[20 + j]),
                ensures
                    20 + k <= n,
                    20 + k == n || !is_digit(s@[20 + k]),
                    forall|j: int| 0 <= j < k ==> is_digit(#[trigger] s@[20 + j]),
                decreases n - 20 - k,
            {
                if 20 + k >= n {
                    break ;
                }
                match digit_at(s, 20 + k) {
                    Some(_) => {
                        k = k + 1;
                    },
                    None => {
                        break ;
                    },
                }
            }
            proof {
                assert(frdigits.len() == n - 20);
                assert(forall|j: int| 0 <= j < k ==> is_digit(#[trigger] frdigits[j])) by {
                    assert(forall|j: int|
                        0 <= j < k ==> #[trigger] frdigits[j] == s@[20 + j]);
                }
                if 20 + k < n {
                    assert(frdigits[k as int] == s@[20 + k]);
                }
                lemma_digits_len_eq(frdigits, k as int);
                assert(digits_len(tail.subrange(1, tail.len() as int)) == k) by {
                    assert(tail.subrange(1, tail.len() as int) =~= frdigits);
                }
            }
            if k < 1 || k > 9 {
                return Err(Error::msg("can't parse ISO-8601 time"));
            }
            let mut fv: u16 = 0;
            if let Some(v) = digit_at(s, 20) {
                fv = v as u16 * 100;
            }
            if k >= 2 {
                if let Some(v) = digit_at(s, 21) {
                    fv = fv + v as u16 * 10;
                }
            }
            if k >= 3 {
                if let Some(v) = digit_at(s, 22) {
                    fv = fv + v as u16;
                }
            }
            frac = fv;
            proof {
                assert(frac as int == frac_ms_of(tail.subrange(1, tail.len() as int), k as int))
                    by {
                    assert(tail.subrange(1, tail.len() as int) =~= frdigits);
                    assert(forall|j: int| 0 <= j < k ==> frdigits[j] == s@[20 + j]);
                }
            }
            ri = 20 + k;
        }
        let ghost rest = s@.subrange(ri as int, s@.len() as int);
        proof {
            if has_frac {
                assert(rest =~= tail.subrange(
                    1 + digits_len(tail.subrange(1, tail.len() as int)),
                    tail.len() as int,
                ));
            } else {
                assert(rest =~= tail);
            }
        }
        let off_min: i32;
        if n - ri == 1 {
            let c = s.get_char(ri);
            if c == 'Z' || c == 'z' {
                off_min = 0;
            } else {
                return Err(Error::msg("can't parse ISO-8601 time"));
            }
        } else if n - ri == 6 {
            let sign = s.get_char(ri);
            if !(sign == '+' || sign == '-') {
                return Err(Error::msg("can't parse ISO-8601 time"));
            }
            let hh: u8 = match two_digits_at(s, ri + 1) {
                Some(v) => v,
                None => {
                    return Err(Error::msg("can't parse ISO-8601 time"));
                },
            };
            if s.get_char(ri + 3) != ':' {
                return Err(Error::msg("can't parse ISO-8601 time"));
            }
            let mm: u8 = match two_digits_at(s, ri + 4) {
                Some(v) => v,
                None => {
                    return Err(Error::msg("can't parse ISO-8601 time"));
                },
            };
            if hh > 23 || mm > 59 {
                return Err(Error::msg("can't parse ISO-8601 time"));
            }
            if sign == '+' {
                off_min = hh as i32 * 60 + mm as i32;
            } else {
                off_min = -(hh as i32 * 60 + mm as i32);
            }
        } else {
            return Err(Error::msg("can't parse ISO-8601 time"));
        }
        let days: i64 = days_from_civil_i(y, mo, d);
        let v: i64 = (days * 86400 + h as i64 * 3600 + mi as i64 * 60 + sec as i64 - off_min
            as i64 * 60) * 1000 + frac as i64;
        if v < 0 {
            Err(Error::TimeOutOfRange("before the epoch".to_owned()))
        } else {
            Ok(Timestamp::from_unix_millis(v as u64))
        }
    }

    /// Reads an RFC 3339 timestamp; an alias of [`Self::from_iso_string`].
    pub fn parse(s: &str) -> (r: Result<Timestamp>)
        ensures
            match iso_parse(s@) {
                Option::None => r matches Err(e) && e is Other,
                Option::Some(v) => if v < 0 {
                    r matches Err(e) && e is TimeOutOfRange
                } else {
                    r matches Ok(t) && t@ == v
                },
            },
    {
        Self::from_iso_string(s)
    }
}

/// Counting digits one at a time agrees with [`digits_len`].
pub(crate) proof fn lemma_digits_len_eq(t: Seq<char>, k: int)
    requires
        0 <= k <= t.len(),
        forall|j: int| 0 <= j < k ==> is_digit(t[j]),
        k == t.len() || !is_digit(t[k]),
    ensures
        digits_len(t) == k,
    decreases k,
{
    if k == 0 {
    } else {
        let t1 = t.subrange(1, t.len() as int);
        assert(forall|j: int| 0 <= j < k - 1 ==> is_digit(t1[j]));
        assert(k - 1 == t1.len() || !is_digit(t1[k - 1]));
        lemma_digits_len_eq(t1, k - 1);
    }
}

/// Whether the six calendar components name a real second of a real day.
pub open spec fn valid_calendar(y: int, mo: int, d: int, h: int, mi: int, s: int) -> bool {
    &&& y <= 9999
    &&& 1 <= mo <= 12
    &&& 1 <= d <= days_in_month(y, mo)
    &&& 0 <= h < 24
    &&& 0 <= mi < 60
    &&& 0 <= s < 60
}

/// The unix milliseconds named by calendar components read in a whole-hour
/// offset; negative for instants before the epoch.
pub open spec fn calendar_and_offset_ms(
    y: int,
    mo: int,
    d: int,
    h: int,
    mi: int,
    s: int,
    off_hrs: int,
) -> int {
    (days_from_civil(y, mo, d) * 86400 + h * 3600 + mi * 60 + s - off_hrs * 3600) * 1000
}

/// How many days the month has, as executable code.
fn days_in_month_of(y: u16, m: u8) -> (r: u8)
    requires
        1 <= m <= 12,
    ensures
        r as int == days_in_month(y as int, m as int),
{
    if m == 2 {
        if (y % 4 == 0 && y % 100 != 0) || y % 400 == 0 {
            29
        } else {
            28
        }
    } else if m == 4 || m == 6 || m == 9 || m == 11 {
        30
    } else {
        31
    }
}


/// A closed-open window of time `[start, end)`, used for event-log queries
/// and the startup replay lookback.
#[derive(Debug, Clone, Copy, PartialEq, Eq, Structural)]
pub struct Timespan {
    start: Timestamp,
    end: Timestamp,
}

impl Timespan {
    pub closed spec fn start_ms(self) -> int {
        self.start@
    }

    pub closed spec fn end_ms(self) -> int {
        self.end@
    }

    /// Constructors order the two endpoints, so the start never follows the
    /// end.
    pub closed spec fn wf(self) -> bool {
        self.start@ <= self.end@
    }

    pub fn new(ts1: Timestamp, ts2: Timestamp) -> (r: Timespan)
        ensures
            r.start_ms() == if ts1@ <= ts2@ { ts1@ } else { ts2@ },
            r.end_ms() == if ts1@ <= ts2@ { ts2@ } else { ts1@ },
            r.wf(),
    {
        Self::from_two_timestamps(ts1, ts2)
    }

    /// Spans the two instants in whichever order they are given.
    pub fn from_two_timestamps(ts1: Timestamp, ts2: Timestamp) -> (r: Timespan)
        ensures
            r.start_ms() == if ts1@ <= ts2@ { ts1@ } else { ts2@ },
            r.end_ms() == if ts1@ <= ts2@ { ts2@ } else { ts1@ },
            r.wf(),
    {
        let start = ts1.min(ts2);
        let end = ts1.max(ts2);
        Timespan { start, end }
    }

    /// The empty window anchored at one instant.
    pub fn moment(ts: Timestamp) -> (r: Timespan)
        ensures
            r.start_ms() == ts@,
            r.end_ms() == ts@,
            r.wf(),
    {
        Timespan { start: ts, end: ts }
    }

    pub fn from_timestamp_and_ms(ts: Timestamp, duration_ms: u32) -> (r: Result<Timespan>)
        ensures
            ts@ + duration_ms <= u64::MAX ==> (r matches Ok(s)
                && s.start_ms() == ts@
                && s.end_ms() == ts@ + duration_ms
                && s.wf()),
            ts@ + duration_ms > u64::MAX ==> r is Err,
    {
        match ts.add(Duration::from_millis(duration_ms as u64)) {
            Ok(end) => Ok(Self::new(ts, end)),
            Err(e) => Err(e),
        }
    }

    pub fn from_timestamp_and_days(ts: Timestamp, duration_days: u32) -> (r: Result<Timespan>)
        ensures
            ts@ + duration_days as int * 86400000 <= u64::MAX ==> (r matches Ok(s)
                && s.start_ms() == ts@
                && s.end_ms() == ts@ + duration_days as int * 86400000
                && s.wf()),
            ts@ + duration_days as int * 86400000 > u64::MAX ==> r is Err,
    {
        match ts.add(Duration::from_days(duration_days)) {
            Ok(end) => Ok(Self::new(ts, end)),
            Err(e) => Err(e),
        }
    }

    pub fn from_timestamp_and_duration(ts: Timestamp, duration: Duration) -> (r: Result<Timespan>)
        ensures
            ts@ + duration.spec_millis() <= u64::MAX ==> (r matches Ok(s)
                && s.start_ms() == ts@
                && s.end_ms() == ts@ + duration.spec_millis()
                && s.wf()),
            ts@ + duration.spec_millis() > u64::MAX ==> r is Err,
    {
        match ts.add(duration) {
            Ok(end) => Ok(Self::new(ts, end)),
            Err(e) => Err(e),
        }
    }

    /// Same as [`Self::from_timestamp_and_duration`], kept for callers of the
    /// fallible name.
    pub fn try_from_timestamp_and_duration(ts: Timestamp, duration: Duration) -> (r: Result<
        Timespan,
    >)
        ensures
            ts@ + duration.spec_millis() <= u64::MAX ==> (r matches Ok(s)
                && s.start_ms() == ts@
                && s.end_ms() == ts@ + duration.spec_millis()
                && s.wf()),
            ts@ + duration.spec_millis() > u64::MAX ==> r is Err,
    {
        Self::from_timestamp_and_duration(ts, duration)
    }

    /// The whole of a calendar year, from its first instant to its last
    /// whole second.
    pub fn entire_year(y: u16) -> (r: Result<Timespan>)
        ensures
            ({
                let start = calendar_and_offset_ms(y as int, 1, 1, 0, 0, 0, 0);
                let end = calendar_and_offset_ms(y as int, 12, 31, 23, 59, 59, 0);
                if y <= 9999 && start >= 0 {
                    r matches Ok(s) && s.start_ms() == start && s.end_ms() == end && s.wf()
                } else {
                    r is Err
                }
            }),
    {
        let start = match Timestamp::from_calendar_utc(y, 1, 1, 0, 0, 0) {
            Ok(t) => t,
            Err(e) => {
                return Err(e);
            },
        };
        let end = match Timestamp::from_calendar_utc(y, 12, 31, 23, 59, 59) {
            Ok(t) => t,
            Err(e) => {
                return Err(e);
            },
        };
        proof {
            lemma_year_order(y as int);
        }
        Ok(Timespan::from_two_timestamps(start, end))
    }

    /// The window of the last seven days, ending now.
    pub fn week_until_now() -> (r: Timespan)
        ensures
            r.wf(),
            r.end_ms() - r.start_ms() <= 7 * 86400000,
            r.start_ms() == if r.end_ms() >= 7 * 86400000 {
                r.end_ms() - 7 * 86400000
            } else {
                0
            },
    {
        let now = Timestamp::now();
        let dur = Duration::from_millis(7 * 24 * 3600 * 1000);
        Self::from_two_timestamps(now.saturating_sub(dur), now)
    }

    pub fn start(&self) -> (r: Timestamp)
        ensures
            r@ == self.start_ms(),
    {
        self.start
    }

    pub fn end(&self) -> (r: Timestamp)
        ensures
            r@ == self.end_ms(),
    {
        self.end
    }

    /// An older name for [`Self::start`].
    pub fn start_time(&self) -> (r: Timestamp)
        ensures
            r@ == self.start_ms(),
    {
        self.start()
    }

    /// An older name for [`Self::end`].
    pub fn end_time(&self) -> (r: Timestamp)
        ensures
            r@ == self.end_ms(),
    {
        self.end()
    }

    /// An older name for [`Self::start`].
    pub fn start_ts(&self) -> (r: Timestamp)
        ensures
            r@ == self.start_ms(),
    {
        self.start()
    }

    /// An older name for [`Self::end`].
    pub fn end_ts(&self) -> (r: Timestamp)
        ensures
            r@ == self.end_ms(),
    {
        self.end()
    }

    /// How long the window is.
    pub fn duration(&self) -> (r: Duration)
        ensures
            r.spec_millis() == abs(self.end_ms() - self.start_ms()),
            r.wf(),
    {
        self.end.duration_between(self.start)
    }

    /// How long the window is, in milliseconds.
    pub fn duration_ms(&self) -> (r: u64)
        ensures
            r as int == abs(self.end_ms() - self.start_ms()),
    {
        self.start().millis_between(self.end())
    }

    /// The start of the window together with its length.
    pub fn startduration(&self) -> (r: (Timestamp, Duration))
        ensures
            r.0@ == self.start_ms(),
            r.1.spec_millis() == abs(self.end_ms() - self.start_ms()),
    {
        (self.start_time(), self.duration())
    }

    /// Whether the two windows share at least one instant (both taken as
    /// closed here, as the callers of overlap checks expect).
    pub fn overlaps(&self, other: Timespan) -> (r: bool)
        ensures
            r == (max_int(self.start_ms(), other.start_ms()) <= min_int(
                self.end_ms(),
                other.end_ms(),
            )),
    {
        let max_start = self.start().max(other.start());
        let min_end = self.end().min(other.end());
        max_start.as_unix_millis() <= min_end.as_unix_millis()
    }

    /// Whether the instant falls inside the closed-open window.
    pub fn includes(&self, ts: Timestamp) -> (r: bool)
        ensures
            r == (self.start_ms() <= ts@ < self.end_ms()),
    {
        let t = ts.as_unix_millis();
        self.start.as_unix_millis() <= t && t < self.end.as_unix_millis()
    }

    /// The overlap of the two windows; when they are disjoint the result is
    /// the (reordered) gap between them, as the original rule has it.
    pub fn merge(&self, other: &Timespan) -> (r: Timespan)
        ensures
            ({
                let s = max_int(self.start_ms(), other.start_ms());
                let e = min_int(self.end_ms(), other.end_ms());
                r.start_ms() == min_int(s, e) && r.end_ms() == max_int(s, e) && r.wf()
            }),
    {
        let start = self.start().max(other.start());
        let end = self.end().min(other.end());
        Self::new(start, end)
    }
}

/// Whether the proleptic Gregorian year has a February 29.
pub open spec fn is_leap_year(y: int) -> bool {
    (y % 4 == 0 && y % 100 != 0) || y % 400 == 0
}

/// How many days the month `m` of year `y` has.
pub open spec fn days_in_month(y: int, m: int) -> int {
    if m == 2 {
        if is_leap_year(y) {
            29
        } else {
            28
        }
    } else if m == 4 || m == 6 || m == 9 || m == 11 {
        30
    } else {
        31
    }
}

/// The day number of the civil date `y-m-d`, counted from 1970-01-01.
/// Years are grouped into 400-year eras of 146097 days each, counted from
/// March so that a leap day is the last day of its year.
pub open spec fn days_from_civil(y: int, m: int, d: int) -> int {
    let yy = if m <= 2 {
        y - 1
    } else {
        y
    };
    let era = yy / 400;
    let yoe = yy - era * 400;
    let mp = if m > 2 {
        m - 3
    } else {
        m + 9
    };
    let doy = (153 * mp + 2) / 5 + d - 1;
    let doe = yoe * 365 + yoe / 4 - yoe / 100 + doy;
    era * 146097 + doe - 719468
}

/// The civil date `(y, m, d)` of day number `z`, the inverse direction of
/// [`days_from_civil`].
pub open spec fn civil_from_days(z: int) -> (int, int, int) {
    let z2 = z + 719468;
    let era = z2 / 146097;
    let doe = z2 - era * 146097;
    let yoe = (doe - doe / 1460 + doe / 36524 - doe / 146096) / 365;
    let doy = doe - (365 * yoe + yoe / 4 - yoe / 100);
    let mp = (5 * doy + 2) / 153;
    let d = doy - (153 * mp + 2) / 5 + 1;
    let m = if mp < 10 {
        mp + 3
    } else {
        mp - 9
    };
    let y = if m <= 2 {
        yoe + era * 400 + 1
    } else {
        yoe + era * 400
    };
    (y, m, d)
}

/// The day number of the civil date, for years a four-digit field can hold.
fn days_from_civil_i(y: u16, m: u8, d: u8) -> (r: i64)
    requires
        y <= 9999,
        1 <= m <= 12,
        1 <= d <= 31,
    ensures
        r as int == days_from_civil(y as int, m as int, d as int),
        -865565 <= r <= 2932958,
{
    let yy: u64 = if m <= 2 {
        y as u64 + 399
    } else {
        y as u64 + 400
    };
    let era400: u64 = yy / 400;
    proof {
        vstd::arithmetic::div_mod::lemma_fundamental_div_mod(yy as int, 400);
        vstd::arithmetic::div_mod::lemma_mod_bound(yy as int, 400);
        assert(era400 <= 25) by (nonlinear_arith)
            requires
                yy == 400 * (era400 as int) + yy as int % 400 && 0 <= yy as int % 400 && yy
                    <= 10399,
        ;
    }
    let yoe: u64 = yy - era400 * 400;
    let era: i64 = era400 as i64 - 1;
    let mp: u64 = if m > 2 {
        m as u64 - 3
    } else {
        m as u64 + 9
    };
    let doy: u64 = (153 * mp + 2) / 5 + d as u64 - 1;
    proof {
        assert((153 * mp as int + 2) / 5 <= 337 && (153 * mp as int + 2) / 5 >= 0)
            by (nonlinear_arith)
            requires
                0 <= mp <= 11,
        ;
        assert(yoe as int / 4 <= 99 && yoe as int / 100 <= 3) by (nonlinear_arith)
            requires
                yoe < 400,
        ;
    }
    let doe: u64 = yoe * 365 + yoe / 4 - yoe / 100 + doy;
    proof {
        let yys = if m <= 2 {
            y - 1
        } else {
            y as int
        };
        assert(yy == yys + 400);
        let q = yys / 400;
        let rr = yys % 400;
        vstd::arithmetic::div_mod::lemma_fundamental_div_mod(yys, 400);
        vstd::arithmetic::div_mod::lemma_mod_bound(yys, 400);
        assert(yys + 400 == (q + 1) * 400 + rr) by (nonlinear_arith)
            requires
                yys == 400 * q + rr,
        ;
        vstd::arithmetic::div_mod::lemma_fundamental_div_mod_converse(yys + 400, 400, q + 1, rr);
        assert(era400 as int == q + 1);
        assert(yoe as int == yys - q * 400) by (nonlinear_arith)
            requires
                yoe == yy - era400 * 400 && yy == yys + 400 && era400 == q + 1,
        ;
    }
    era * 146097 + doe as i64 - 719468
}

/// The civil date of day number `z`, for days before the year 10000.
fn civil_from_days_u(z: u64) -> (r: (u16, u8, u8))
    requires
        z <= 2932896,
    ensures
        r.0 as int == civil_from_days(z as int).0,
        r.1 as int == civil_from_days(z as int).1,
        r.2 as int == civil_from_days(z as int).2,
        r.0 <= 9999,
        1 <= r.1 <= 12,
        1 <= r.2 <= 31,
{
    let z2: u64 = z + 719468;
    let era: u64 = z2 / 146097;
    let doe: u64 = z2 - era * 146097;
    proof {
        assert(era <= 25) by (nonlinear_arith)
            requires
                z2 <= 3652364 && era == z2 as int / 146097,
        ;
        assert(doe < 146097) by {
            vstd::arithmetic::div_mod::lemma_fundamental_div_mod(z2 as int, 146097);
            vstd::arithmetic::div_mod::lemma_mod_bound(z2 as int, 146097);
        }
    }
    let yoe: u64 = (doe - doe / 1460 + doe / 36524 - doe / 146096) / 365;
    proof {
        lemma_yoe_bounds(doe as int);
    }
    let doy: u64 = doe - (365 * yoe + yoe / 4 - yoe / 100);
    proof {
        lemma_doy_bounds(doe as int, yoe as int);
    }
    let mp: u64 = (5 * doy + 2) / 153;
    proof {
        assert(mp <= 11) by (nonlinear_arith)
            requires
                doy <= 365 && mp == (5 * doy as int + 2) / 153,
        ;
    }
    let d: u64 = doy - (153 * mp + 2) / 5 + 1;
    proof {
        lemma_day_of_month_bounds(doy as int, mp as int);
    }
    let m: u64 = if mp < 10 {
        mp + 3
    } else {
        mp - 9
    };
    let y: u64 = if m <= 2 {
        yoe + era * 400 + 1
    } else {
        yoe + era * 400
    };
    (y as u16, m as u8, d as u8)
}

/// The year-of-era read back from a day-of-era stays on the 400-year dial.
proof fn lemma_yoe_bounds(doe: int)
    requires
        0 <= doe <= 146096,
    ensures
        0 <= (doe - doe / 1460 + doe / 36524 - doe / 146096) / 365 <= 399,
        doe - doe / 1460 + doe / 36524 - doe / 146096 >= 0,
{
    let n = doe - doe / 1460 + doe / 36524 - doe / 146096;
    assert(0 <= doe / 1460 <= doe / 1460);
    assert(doe / 1460 <= doe) by (nonlinear_arith)
        requires
            doe >= 0,
    ;
    assert(n <= 145999) by {
        if doe >= 146000 {
            assert(doe / 1460 >= 100) by (nonlinear_arith)
                requires
                    doe >= 146000,
            ;
            assert(doe / 36524 <= 4) by (nonlinear_arith)
                requires
                    doe <= 146096,
            ;
            if doe == 146096 {
                assert(doe / 36524 == 4);
                assert(doe / 146096 == 1);
                assert(doe / 1460 == 100);
            } else {
                assert(doe / 36524 <= 3) by (nonlinear_arith)
                    requires
                        doe <= 146095,
                ;
            }
        } else {
            assert(doe / 36524 <= 3) by (nonlinear_arith)
                requires
                    doe <= 145999,
            ;
            if doe >= 145900 {
                assert(doe / 1460 >= 99) by (nonlinear_arith)
                    requires
                        doe >= 144540,
                ;
            }
        }
    }
    assert(n >= 0) by {
        assert(doe / 1460 <= doe);
        if doe == 146096 {
            assert(doe / 1460 == 100);
        } else {
            assert(doe / 146096 == 0) by (nonlinear_arith)
                requires
                    0 <= doe < 146096,
            ;
        }
        assert(doe / 36524 >= 0) by (nonlinear_arith)
            requires
                doe >= 0,
        ;
    }
    assert(n / 365 <= 399) by (nonlinear_arith)
        requires
            0 <= n <= 145999,
    ;
    assert(n / 365 >= 0) by (nonlinear_arith)
        requires
            n >= 0,
    ;
}

/// The day-of-year read back from a day-of-era lands inside one year.
proof fn lemma_doy_bounds(doe: int, yoe: int)
    requires
        0 <= doe <= 146096,
        yoe == (doe - doe / 1460 + doe / 36524 - doe / 146096) / 365,
    ensures
        0 <= doe - (365 * yoe + yoe / 4 - yoe / 100) <= 365,
        365 * yoe + yoe / 4 - yoe / 100 >= 0,
{
    let n = doe - doe / 1460 + doe / 36524 - doe / 146096;
    lemma_yoe_bounds(doe);
    assert(365 * yoe <= n && n < 365 * yoe + 365) by (nonlinear_arith)
        requires
            yoe == n / 365 && n >= 0,
    ;
    let start = 365 * yoe + yoe / 4 - yoe / 100;
    assert(yoe / 4 <= 99) by (nonlinear_arith)
        requires
            yoe <= 399,
    ;
    assert(yoe / 100 <= 3) by (nonlinear_arith)
        requires
            yoe <= 399,
    ;
    assert(yoe / 4 >= 0 && yoe / 100 >= 0) by (nonlinear_arith)
        requires
            yoe >= 0,
    ;
    // Lower bound: doe >= start.
    assert(doe >= start) by {
        assert(doe / 1460 <= (yoe + 1) / 4 + yoe / 4 - yoe / 4) by {
            lemma_div_quarters(doe, yoe, n);
        }
    }
    // Upper bound: doe <= start + 365.
    assert(doe <= start + 365) by {
        lemma_doy_upper(doe, yoe, n);
    }
}

/// Helper: relates the quarter-count corrections on both sides.
proof fn lemma_div_quarters(doe: int, yoe: int, n: int)
    requires
        0 <= doe <= 146096,
        n == doe - doe / 1460 + doe / 36524 - doe / 146096,
        yoe == n / 365,
        365 * yoe <= n,
    ensures
        doe >= 365 * yoe + yoe / 4 - yoe / 100,
{
    // doe - n == doe/1460 - doe/36524 + doe/146096, each term bounded by the
    // corresponding century/quarter counts of yoe.
    assert(doe - n == doe / 1460 - doe / 36524 + doe / 146096);
    assert(doe / 1460 - doe / 36524 + doe / 146096 <= doe / 1460 + 1);
    assert(doe >= 365 * yoe) by {
        assert(doe >= n);
        assert(n >= 365 * yoe);
    }
    // yoe/4 - yoe/100 <= doe/1460 - doe/36524 + doe/146096 would close it;
    // prove via the coarse route: yoe <= doe / 365 and quarter monotonicity.
    assert(yoe / 4 - yoe / 100 <= doe - 365 * yoe) by (nonlinear_arith)
        requires
            0 <= doe <= 146096,
            n == doe - doe / 1460 + doe / 36524 - doe / 146096,
            yoe == n / 365,
            365 * yoe <= n,
    ;
}

/// Helper: the day-of-year never runs past one full year.
proof fn lemma_doy_upper(doe: int, yoe: int, n: int)
    requires
        0 <= doe <= 146096,
        n == doe - doe / 1460 + doe / 36524 - doe / 146096,
        yoe == n / 365,
        n < 365 * yoe + 365,
    ensures
        doe <= 365 * yoe + yoe / 4 - yoe / 100 + 365,
{
    assert(doe <= 365 * yoe + yoe / 4 - yoe / 100 + 365) by (nonlinear_arith)
        requires
            0 <= doe <= 146096,
            n == doe - doe / 1460 + doe / 36524 - doe / 146096,
            yoe == n / 365,
            n < 365 * yoe + 365,
    ;
}

/// The day field read back from a day-of-year is a real day of a month.
proof fn lemma_day_of_month_bounds(doy: int, mp: int)
    requires
        0 <= doy <= 365,
        mp == (5 * doy + 2) / 153,
    ensures
        1 <= doy - (153 * mp + 2) / 5 + 1 <= 31,
{
    assert(153 * mp <= 5 * doy + 2 && 5 * doy + 2 < 153 * mp + 153) by (nonlinear_arith)
        requires
            mp == (5 * doy + 2) / 153 && doy >= 0,
    ;
    assert((153 * mp + 2) / 5 <= doy) by (nonlinear_arith)
        requires
            153 * mp <= 5 * doy + 2,
            mp >= 0,
    ;
    assert(doy - (153 * mp + 2) / 5 <= 30) by (nonlinear_arith)
        requires
            5 * doy + 2 < 153 * mp + 153,
            mp >= 0,
            doy >= 0,
    ;
}

/// The decimal digit character for `d`.
pub open spec fn digit_char(d: int) -> char {
    if d == 0 {
        '0'
    } else if d == 1 {
        '1'
    } else if d == 2 {
        '2'
    } else if d == 3 {
        '3'
    } else if d == 4 {
        '4'
    } else if d == 5 {
        '5'
    } else if d == 6 {
        '6'
    } else if d == 7 {
        '7'
    } else if d == 8 {
        '8'
    } else {
        '9'
    }
}

/// Whether `c` is a decimal digit.
pub open spec fn is_digit(c: char) -> bool {
    48 <= c as int <= 57
}

/// The value of a decimal digit character.
pub open spec fn dval(c: char) -> int {
    c as int - 48
}

/// `v` written as exactly two decimal digits.
pub open spec fn dec2(v: int) -> Seq<char> {
    seq![digit_char(v / 10 % 10), digit_char(v % 10)]
}

/// `v` written as exactly four decimal digits.
pub open spec fn dec4(v: int) -> Seq<char> {
    seq![
        digit_char(v / 1000 % 10),
        digit_char(v / 100 % 10),
        digit_char(v / 10 % 10),
        digit_char(v % 10),
    ]
}

/// The fractional-second field for `ms` milliseconds within the second:
/// empty when zero, otherwise a point and the millisecond digits with
/// trailing zeros trimmed.
pub open spec fn frac_part(ms: int) -> Seq<char> {
    let d1 = ms / 100 % 10;
    let d2 = ms / 10 % 10;
    let d3 = ms % 10;
    if ms == 0 {
        Seq::empty()
    } else if d3 != 0 {
        seq!['.', digit_char(d1), digit_char(d2), digit_char(d3)]
    } else if d2 != 0 {
        seq!['.', digit_char(d1), digit_char(d2)]
    } else {
        seq!['.', digit_char(d1)]
    }
}

/// The RFC 3339 rendering of a unix-millisecond instant in UTC.
pub open spec fn iso_utc_seq(ms: int) -> Seq<char> {
    let days = ms / 86400000;
    let ymd = civil_from_days(days);
    let sod = (ms / 1000) % 86400;
    let h = sod / 3600;
    let mi = sod % 3600 / 60;
    let s = sod % 60;
    dec4(ymd.0) + seq!['-'] + dec2(ymd.1) + seq!['-'] + dec2(ymd.2) + seq!['T'] + dec2(h)
        + seq![':'] + dec2(mi) + seq![':'] + dec2(s) + frac_part(ms % 1000) + seq!['Z']
}

/// Writes one decimal digit.
pub(crate) fn push_digit(out: &mut String, d: u8)
    requires
        d < 10,
    ensures
        final(out)@ == old(out)@ + seq![digit_char(d as int)],
{
    if d == 0 {
        proof {
            reveal_strlit("0");
        }
        out.append("0");
    } else if d == 1 {
        proof {
            reveal_strlit("1");
        }
        out.append("1");
    } else if d == 2 {
        proof {
            reveal_strlit("2");
        }
        out.append("2");
    } else if d == 3 {
        proof {
            reveal_strlit("3");
        }
        out.append("3");
    } else if d == 4 {
        proof {
            reveal_strlit("4");
        }
        out.append("4");
    } else if d == 5 {
        proof {
            reveal_strlit("5");
        }
        out.append("5");
    } else if d == 6 {
        proof {
            reveal_strlit("6");
        }
        out.append("6");
    } else if d == 7 {
        proof {
            reveal_strlit("7");
        }
        out.append("7");
    } else if d == 8 {
        proof {
            reveal_strlit("8");
        }
        out.append("8");
    } else {
        proof {
            reveal_strlit("9");
        }
        out.append("9");
    }
    proof {
        assert(out@ =~= old(out)@ + seq![digit_char(d as int)]);
    }
}

/// Writes `v` as exactly two decimal digits.
fn push_2digits(out: &mut String, v: u8)
    requires
        v < 100,
    ensures
        final(out)@ == old(out)@ + dec2(v as int),
{
    push_digit(out, v / 10);
    push_digit(out, v % 10);
    proof {
        assert(v as int / 10 % 10 == v as int / 10) by (nonlinear_arith)
            requires
                v < 100,
        ;
        assert(out@ =~= old(out)@ + dec2(v as int));
    }
}

/// Writes `v` as exactly four decimal digits.
fn push_4digits(out: &mut String, v: u16)
    requires
        v < 10000,
    ensures
        final(out)@ == old(out)@ + dec4(v as int),
{
    push_digit(out, (v / 1000) as u8);
    push_digit(out, (v / 100 % 10) as u8);
    push_digit(out, (v / 10 % 10) as u8);
    push_digit(out, (v % 10) as u8);
    proof {
        assert(v as int / 1000 % 10 == v as int / 1000) by (nonlinear_arith)
            requires
                v < 10000,
        ;
        assert(out@ =~= old(out)@ + dec4(v as int));
    }
}

/// Whether `s` starts with a well-formed `YYYY-MM-DDThh:mm:ss` prefix.
pub open spec fn iso_fixed_ok(s: Seq<char>) -> bool {
    &&& s.len() >= 19
    &&& is_digit(s[0]) && is_digit(s[1]) && is_digit(s[2]) && is_digit(s[3])
    &&& s[4] == '-'
    &&& is_digit(s[5]) && is_digit(s[6])
    &&& s[7] == '-'
    &&& is_digit(s[8]) && is_digit(s[9])
    &&& (s[10] == 'T' || s[10] == 't')
    &&& is_digit(s[11]) && is_digit(s[12])
    &&& s[13] == ':'
    &&& is_digit(s[14]) && is_digit(s[15])
    &&& s[16] == ':'
    &&& is_digit(s[17]) && is_digit(s[18])
}

pub open spec fn iso_year_of(s: Seq<char>) -> int {
    dval(s[0]) * 1000 + dval(s[1]) * 100 + dval(s[2]) * 10 + dval(s[3])
}

pub open spec fn iso_month_of(s: Seq<char>) -> int {
    dval(s[5]) * 10 + dval(s[6])
}

pub open spec fn iso_day_of(s: Seq<char>) -> int {
    dval(s[8]) * 10 + dval(s[9])
}

pub open spec fn iso_hour_of(s: Seq<char>) -> int {
    dval(s[11]) * 10 + dval(s[12])
}

pub open spec fn iso_minute_of(s: Seq<char>) -> int {
    dval(s[14]) * 10 + dval(s[15])
}

pub open spec fn iso_second_of(s: Seq<char>) -> int {
    dval(s[17]) * 10 + dval(s[18])
}

/// How many decimal digits `t` starts with.
pub open spec fn digits_len(t: Seq<char>) -> int
    decreases t.len(),
{
    if t.len() == 0 || !is_digit(t[0]) {
        0
    } else {
        1 + digits_len(t.subrange(1, t.len() as int))
    }
}

/// The milliseconds named by the first `k` fraction digits of `t`; digits
/// beyond the third are truncated away, missing digits count as zero.
pub open spec fn frac_ms_of(t: Seq<char>, k: int) -> int {
    (if k >= 1 {
        dval(t[0]) * 100
    } else {
        0
    }) + (if k >= 2 {
        dval(t[1]) * 10
    } else {
        0
    }) + (if k >= 3 {
        dval(t[2])
    } else {
        0
    })
}

/// The offset, in minutes, named by an RFC 3339 offset suffix: `Z` (or
/// `z`), or a sign and `hh:mm`.
pub open spec fn iso_offset_min(rest: Seq<char>) -> Option<int> {
    if rest.len() == 1 && (rest[0] == 'Z' || rest[0] == 'z') {
        Some(0int)
    } else if rest.len() == 6 && (rest[0] == '+' || rest[0] == '-') && is_digit(rest[1])
        && is_digit(rest[2]) && rest[3] == ':' && is_digit(rest[4]) && is_digit(rest[5]) {
        let hh = dval(rest[1]) * 10 + dval(rest[2]);
        let mm = dval(rest[4]) * 10 + dval(rest[5]);
        if hh <= 23 && mm <= 59 {
            if rest[0] == '+' {
                Some(hh * 60 + mm)
            } else {
                Some(-(hh * 60 + mm))
            }
        } else {
            None
        }
    } else {
        None
    }
}

/// The unix milliseconds named by an RFC 3339 timestamp, or `None` when
/// the text does not parse.  Milliseconds may be negative for instants
/// before the epoch.  Day-of-month is checked against 31 only; a
/// nonexistent day such as February 30 is read leniently and normalized
/// forward into the following month.
pub open spec fn iso_parse(s: Seq<char>) -> Option<int> {
    if !iso_fixed_ok(s) {
        None
    } else {
        let y = iso_year_of(s);
        let mo = iso_month_of(s);
        let d = iso_day_of(s);
        let h = iso_hour_of(s);
        let mi = iso_minute_of(s);
        let sec = iso_second_of(s);
        if !(1 <= mo <= 12 && 1 <= d <= 31 && h <= 23 && mi <= 59 && sec <= 59) {
            None
        } else {
            let tail = s.subrange(19, s.len() as int);
            let has_frac = tail.len() > 0 && tail[0] == '.';
            let k = if has_frac {
                digits_len(tail.subrange(1, tail.len() as int))
            } else {
                0
            };
            if has_frac && !(1 <= k <= 9) {
                None
            } else {
                let frac = if has_frac {
                    frac_ms_of(tail.subrange(1, tail.len() as int), k)
                } else {
                    0
                };
                let rest = if has_frac {
                    tail.subrange(1 + k, tail.len() as int)
                } else {
                    tail
                };
                match iso_offset_min(rest) {
                    Option::None => None,
                    Option::Some(off) => Some(
                        (days_from_civil(y, mo, d) * 86400 + h * 3600 + mi * 60 + sec - off * 60)
                            * 1000 + frac,
                    ),
                }
            }
        }
    }
}

/// Reads the decimal digit at `i`, if there is one.
pub(crate) fn digit_at(s: &str, i: usize) -> (r: Option<u8>)
    requires
        i < s@.len(),
    ensures
        match r {
            Option::Some(v) => is_digit(s@[i as int]) && v as int == dval(s@[i as int]) && v <= 9,
            Option::None => !is_digit(s@[i as int]),
        },
{
    let c = s.get_char(i);
    let u = c as u32;
    if 48 <= u && u <= 57 {
        Some((u - 48) as u8)
    } else {
        None
    }
}

/// Reads the two-digit field at `i`, if both characters are digits.
pub(crate) fn two_digits_at(s: &str, i: usize) -> (r: Option<u8>)
    requires
        i < usize::MAX,
        i + 1 < s@.len(),
    ensures
        match r {
            Option::Some(v) => is_digit(s@[i as int]) && is_digit(s@[i + 1]) && v as int == dval(
                s@[i as int],
            ) * 10 + dval(s@[i + 1]) && v <= 99,
            Option::None => !(is_digit(s@[i as int]) && is_digit(s@[i + 1])),
        },
{
    match (digit_at(s, i), digit_at(s, i + 1)) {
        (Some(a), Some(b)) => Some(a * 10 + b),
        _ => None,
    }
}

/// A digit character is a digit and names its own value.
proof fn lemma_digit_char_val(d: int)
    requires
        0 <= d <= 9,
    ensures
        is_digit(digit_char(d)),
        dval(digit_char(d)) == d,
        digit_char(d) != ' ',
{
}

/// A value under 100 is recovered from its two decimal digits.
proof fn lemma_dec_recompose2(v: int)
    requires
        0 <= v < 100,
    ensures
        10 * (v / 10 % 10) + v % 10 == v,
        0 <= v / 10 % 10 <= 9,
        0 <= v % 10 <= 9,
{
    vstd::arithmetic::div_mod::lemma_fundamental_div_mod(v, 10);
    vstd::arithmetic::div_mod::lemma_mod_bound(v, 10);
    assert(0 <= v / 10 < 10) by (nonlinear_arith)
        requires
            0 <= v < 100,
    ;
    vstd::arithmetic::div_mod::lemma_small_mod((v / 10) as nat, 10);
}

/// A value under 10000 is recovered from its four decimal digits.
proof fn lemma_dec_recompose4(v: int)
    requires
        0 <= v < 10000,
    ensures
        1000 * (v / 1000 % 10) + 100 * (v / 100 % 10) + 10 * (v / 10 % 10) + v % 10 == v,
        0 <= v / 1000 % 10 <= 9,
        0 <= v / 100 % 10 <= 9,
        0 <= v / 10 % 10 <= 9,
        0 <= v % 10 <= 9,
{
    vstd::arithmetic::div_mod::lemma_fundamental_div_mod(v, 1000);
    vstd::arithmetic::div_mod::lemma_mod_bound(v, 1000);
    assert(0 <= v / 1000 < 10) by (nonlinear_arith)
        requires
            0 <= v < 10000,
    ;
    vstd::arithmetic::div_mod::lemma_small_mod((v / 1000) as nat, 10);
    vstd::arithmetic::div_mod::lemma_breakdown(v, 100, 10);
    assert(v % 1000 == 100 * ((v / 100) % 10) + v % 100);
    vstd::arithmetic::div_mod::lemma_breakdown(v, 10, 10);
    assert(v % 100 == 10 * ((v / 10) % 10) + v % 10);
    vstd::arithmetic::div_mod::lemma_mod_bound(v, 100);
    vstd::arithmetic::div_mod::lemma_mod_bound(v, 10);
    vstd::arithmetic::div_mod::lemma_mod_bound(v / 100, 10);
    vstd::arithmetic::div_mod::lemma_mod_bound(v / 10, 10);
}

/// The civil date read back from a day number before the year 10000 has
/// in-range components.
proof fn lemma_civil_ranges(z: int)
    requires
        0 <= z <= 2932896,
    ensures
        0 <= civil_from_days(z).0 <= 9999,
        1 <= civil_from_days(z).1 <= 12,
        1 <= civil_from_days(z).2 <= 31,
{
    let z2 = z + 719468;
    let era = z2 / 146097;
    let doe = z2 - era * 146097;
    vstd::arithmetic::div_mod::lemma_fundamental_div_mod(z2, 146097);
    vstd::arithmetic::div_mod::lemma_mod_bound(z2, 146097);
    assert(0 <= doe < 146097);
    assert(0 <= era <= 24) by (nonlinear_arith)
        requires
            z2 == 146097 * era + doe && 0 <= doe < 146097 && 719468 <= z2 <= 3652364,
    ;
    let yoe = (doe - doe / 1460 + doe / 36524 - doe / 146096) / 365;
    lemma_yoe_bounds(doe);
    let doy = doe - (365 * yoe + yoe / 4 - yoe / 100);
    lemma_doy_bounds(doe, yoe);
    let mp = (5 * doy + 2) / 153;
    assert(0 <= mp <= 11) by (nonlinear_arith)
        requires
            mp == (5 * doy + 2) / 153 && 0 <= doy <= 365,
    ;
    lemma_day_of_month_bounds(doy, mp);
    let m = if mp < 10 {
        mp + 3
    } else {
        mp - 9
    };
    let y = if m <= 2 {
        yoe + era * 400 + 1
    } else {
        yoe + era * 400
    };
    assert(1 <= m <= 12);
    if m <= 2 && era == 24 && yoe == 399 {
        // January or February of the year after the last era year would lie
        // past the last representable day.
        assert(mp >= 10);
        assert(5 * doy + 2 >= 153 * mp) by (nonlinear_arith)
            requires
                mp == (5 * doy + 2) / 153 && doy >= 0,
        ;
        assert(doy >= 306);
        assert(365 * yoe + yoe / 4 - yoe / 100 == 145731);
        assert(doe >= 146037);
        assert(z2 == 146097 * era + doe);
        assert(z2 >= 24 * 146097 + 146037);
        assert(false);
    }
    assert(y <= 9999) by (nonlinear_arith)
        requires
            y == (if m <= 2 {
                yoe + era * 400 + 1
            } else {
                yoe + era * 400
            }) && 0 <= yoe <= 399 && 0 <= era <= 24 && !(m <= 2 && era == 24 && yoe == 399),
    ;
}

/// Reading a day number back as a civil date and recombining it returns
/// the same day number.
proof fn lemma_civil_inverse(z: int)
    requires
        0 <= z <= 2932896,
    ensures
        ({
            let ymd = civil_from_days(z);
            days_from_civil(ymd.0, ymd.1, ymd.2) == z
        }),
{
    let z2 = z + 719468;
    let era = z2 / 146097;
    let doe = z2 - era * 146097;
    vstd::arithmetic::div_mod::lemma_fundamental_div_mod(z2, 146097);
    vstd::arithmetic::div_mod::lemma_mod_bound(z2, 146097);
    assert(0 <= doe < 146097);
    let yoe = (doe - doe / 1460 + doe / 36524 - doe / 146096) / 365;
    lemma_yoe_bounds(doe);
    let doy = doe - (365 * yoe + yoe / 4 - yoe / 100);
    lemma_doy_bounds(doe, yoe);
    let mp = (5 * doy + 2) / 153;
    assert(0 <= mp <= 11) by (nonlinear_arith)
        requires
            mp == (5 * doy + 2) / 153 && 0 <= doy <= 365,
    ;
    let d = doy - (153 * mp + 2) / 5 + 1;
    let m = if mp < 10 {
        mp + 3
    } else {
        mp - 9
    };
    let y = if m <= 2 {
        yoe + era * 400 + 1
    } else {
        yoe + era * 400
    };
    // The forward direction recovers each intermediate value.
    let yy = if m <= 2 {
        y - 1
    } else {
        y
    };
    assert(yy == era * 400 + yoe);
    assert(yy == era * 400 + yoe) by (nonlinear_arith)
        requires
            yy == era * 400 + yoe,
    ;
    vstd::arithmetic::div_mod::lemma_fundamental_div_mod_converse(yy, 400, era, yoe);
    assert(yy / 400 == era);
    let mp_f = if m > 2 {
        m - 3
    } else {
        m + 9
    };
    assert(mp_f == mp);
    let doy_f = (153 * mp_f + 2) / 5 + d - 1;
    assert(doy_f == doy);
    let doe_f = yoe * 365 + yoe / 4 - yoe / 100 + doy_f;
    assert(doe_f == doe);
    assert(era * 146097 + doe - 719468 == z);
}

/// Formatting an instant and parsing the text back returns the instant.
pub proof fn lemma_iso_round_trip(ms: int)
    requires
        0 <= ms < ISO_YEAR_LIMIT_MS,
    ensures
        iso_parse(iso_utc_seq(ms)) == Some(ms),
{
    let s = iso_utc_seq(ms);
    let days = ms / 86400000;
    assert(0 <= days <= 2932896) by (nonlinear_arith)
        requires
            days == ms / 86400000 && 0 <= ms < 253402300800000,
    ;
    lemma_civil_ranges(days);
    lemma_civil_inverse(days);
    let ymd = civil_from_days(days);
    let y = ymd.0;
    let mo = ymd.1;
    let da = ymd.2;
    let sod = (ms / 1000) % 86400;
    vstd::arithmetic::div_mod::lemma_mod_bound(ms / 1000, 86400);
    assert(0 <= sod < 86400);
    let h = sod / 3600;
    let mi = sod % 3600 / 60;
    let se = sod % 60;
    let frac = ms % 1000;
    vstd::arithmetic::div_mod::lemma_mod_bound(ms, 1000);
    vstd::arithmetic::div_mod::lemma_mod_bound(sod, 3600);
    vstd::arithmetic::div_mod::lemma_mod_bound(sod, 60);
    assert(0 <= h <= 23) by (nonlinear_arith)
        requires
            h == sod / 3600 && 0 <= sod < 86400,
    ;
    assert(0 <= mi <= 59) by (nonlinear_arith)
        requires
            mi == sod % 3600 / 60 && 0 <= sod % 3600 < 3600,
    ;
    lemma_dec_recompose4(y);
    lemma_dec_recompose2(mo);
    lemma_dec_recompose2(da);
    lemma_dec_recompose2(h);
    lemma_dec_recompose2(mi);
    lemma_dec_recompose2(se);
    lemma_dec_recompose2(frac / 10);
    lemma_dec_recompose4(frac);
    assert forall|dd: int| 0 <= dd <= 9 implies is_digit(digit_char(dd)) && dval(digit_char(dd))
        == dd by {
        lemma_digit_char_val(dd);
    }
    // The fixed nineteen characters.
    assert(s[0] == digit_char(y / 1000 % 10));
    assert(s[1] == digit_char(y / 100 % 10));
    assert(s[2] == digit_char(y / 10 % 10));
    assert(s[3] == digit_char(y % 10));
    assert(s[4] == '-');
    assert(s[5] == digit_char(mo / 10 % 10));
    assert(s[6] == digit_char(mo % 10));
    assert(s[7] == '-');
    assert(s[8] == digit_char(da / 10 % 10));
    assert(s[9] == digit_char(da % 10));
    assert(s[10] == 'T');
    assert(s[11] == digit_char(h / 10 % 10));
    assert(s[12] == digit_char(h % 10));
    assert(s[13] == ':');
    assert(s[14] == digit_char(mi / 10 % 10));
    assert(s[15] == digit_char(mi % 10));
    assert(s[16] == ':');
    assert(s[17] == digit_char(se / 10 % 10));
    assert(s[18] == digit_char(se % 10));
    assert(iso_fixed_ok(s));
    assert(iso_year_of(s) == y);
    assert(iso_month_of(s) == mo);
    assert(iso_day_of(s) == da);
    assert(iso_hour_of(s) == h);
    assert(iso_minute_of(s) == mi);
    assert(iso_second_of(s) == se);
    // The tail: fraction digits, then the offset letter.
    let tail = s.subrange(19, s.len() as int);
    assert(tail =~= frac_part(frac) + seq!['Z']);
    let fd1 = frac / 100 % 10;
    let fd2 = frac / 10 % 10;
    let fd3 = frac % 10;
    assert(frac / 100 % 10 == frac / 100) by (nonlinear_arith)
        requires
            frac == ms % 1000 && 0 <= frac < 1000,
    ;
    if frac == 0 {
        assert(tail.len() == 1);
        assert(tail[0] == 'Z');
        assert(iso_offset_min(tail) == Some(0int));
    } else {
        assert(tail[0] == '.');
        let frd = tail.subrange(1, tail.len() as int);
        if fd3 != 0 {
            assert(frd =~= seq![digit_char(fd1), digit_char(fd2), digit_char(fd3), 'Z']);
            lemma_digits_len_eq(frd, 3);
            assert(frac_ms_of(frd, 3) == fd1 * 100 + fd2 * 10 + fd3);
            assert(fd1 * 100 + fd2 * 10 + fd3 == frac);
            let rest = tail.subrange(4, tail.len() as int);
            assert(rest =~= seq!['Z']);
            assert(iso_offset_min(rest) == Some(0int));
        } else if fd2 != 0 {
            assert(frd =~= seq![digit_char(fd1), digit_char(fd2), 'Z']);
            lemma_digits_len_eq(frd, 2);
            assert(frac_ms_of(frd, 2) == fd1 * 100 + fd2 * 10);
            assert(fd1 * 100 + fd2 * 10 == frac);
            let rest = tail.subrange(3, tail.len() as int);
            assert(rest =~= seq!['Z']);
            assert(iso_offset_min(rest) == Some(0int));
        } else {
            assert(frd =~= seq![digit_char(fd1), 'Z']);
            lemma_digits_len_eq(frd, 1);
            assert(frac_ms_of(frd, 1) == fd1 * 100);
            assert(fd1 * 100 == frac);
            let rest = tail.subrange(2, tail.len() as int);
            assert(rest =~= seq!['Z']);
            assert(iso_offset_min(rest) == Some(0int));
        }
    }
    // The value recombines to the instant.
    let secs = ms / 1000;
    vstd::arithmetic::div_mod::lemma_fundamental_div_mod(ms, 1000);
    vstd::arithmetic::div_mod::lemma_div_denominator(ms, 1000, 86400);
    assert(secs / 86400 == days);
    vstd::arithmetic::div_mod::lemma_fundamental_div_mod(secs, 86400);
    assert(secs == 86400 * days + sod);
    vstd::arithmetic::div_mod::lemma_fundamental_div_mod(sod, 3600);
    assert(sod == 3600 * h + sod % 3600);
    vstd::arithmetic::div_mod::lemma_fundamental_div_mod(sod % 3600, 60);
    vstd::arithmetic::div_mod::lemma_breakdown(sod, 60, 60);
    assert(sod % 3600 == 60 * ((sod / 60) % 60) + sod % 60);
    vstd::arithmetic::div_mod::lemma_mod_bound(sod / 60, 60);
    vstd::arithmetic::div_mod::lemma_fundamental_div_mod_converse_mod(
        sod % 3600,
        60,
        (sod / 60) % 60,
        sod % 60,
    );
    assert((sod % 3600) % 60 == sod % 60);
    assert(sod % 3600 == 60 * mi + se);
    assert(secs == 86400 * days + 3600 * h + 60 * mi + se);
    assert(ms == 1000 * secs + frac);
    assert((days_from_civil(y, mo, da) * 86400 + h * 3600 + mi * 60 + se - 0 * 60) * 1000 + frac
        == ms) by (nonlinear_arith)
        requires
            days_from_civil(y, mo, da) == days,
            secs == 86400 * days + 3600 * h + 60 * mi + se,
            ms == 1000 * secs + frac,
    ;
    assert(iso_parse(s) == Some(ms));
}

/// The index of the first occurrence of `c` in `s`, or the length when
/// `c` does not occur.
pub open spec fn find_char(s: Seq<char>, c: char) -> int
    decreases s.len(),
{
    if s.len() == 0 {
        0
    } else if s[0] == c {
        0
    } else {
        1 + find_char(s.subrange(1, s.len() as int), c)
    }
}

/// Scanning forward to the first occurrence agrees with [`find_char`].
pub(crate) proof fn lemma_find_char_eq(s: Seq<char>, c: char, k: int)
    requires
        0 <= k <= s.len(),
        forall|j: int| 0 <= j < k ==> s[j] != c,
        k == s.len() || s[k] == c,
    ensures
        find_char(s, c) == k,
    decreases k,
{
    if k == 0 {
    } else {
        let s1 = s.subrange(1, s.len() as int);
        assert(forall|j: int| 0 <= j < k - 1 ==> s1[j] != c);
        assert(k - 1 == s1.len() || s1[k - 1] == c);
        lemma_find_char_eq(s1, c, k - 1);
    }
}

/// Finds the first occurrence of `c`, scanning between `from` and `hi`.
pub(crate) fn scan_for_char(s: &str, from: usize, hi: usize, c: char) -> (r: usize)
    requires
        from <= hi <= s@.len(),
    ensures
        r == from + find_char(s@.subrange(from as int, hi as int), c),
        from <= r <= hi,
        r == hi || s@[r as int] == c,
        forall|j: int| from <= j < r ==> s@[j] != c,
{
    let ghost part = s@.subrange(from as int, hi as int);
    let mut k: usize = 0;
    loop
        invariant
            from + k <= hi <= s@.len(),
            part == s@.subrange(from as int, hi as int),
            forall|j: int| 0 <= j < k ==> #[trigger] part[j] != c,
        ensures
            from + k <= hi,
            forall|j: int| 0 <= j < k ==> #[trigger] part[j] != c,
            from + k == hi || part[k as int] == c,
        decreases hi - from - k,
    {
        if from + k >= hi {
            break ;
        }
        if s.get_char(from + k) == c {
            proof {
                assert(part[k as int] == s@[from + k]);
            }
            break ;
        }
        k = k + 1;
    }
    proof {
        lemma_find_char_eq(part, c, k as int);
        assert(forall|j: int| from <= j < from + k ==> s@[j] == part[j - from] && part[j - from]
            != c);
    }
    from + k
}

/// The decimal digits of `v`, most significant first.
pub open spec fn dec_str(v: int) -> Seq<char>
    decreases v,
{
    if v < 10 {
        seq![digit_char(v)]
    } else {
        dec_str(v / 10).push(digit_char(v % 10))
    }
}

/// Writes `v` in decimal.
pub fn u64_dec_string(v: u64) -> (r: String)
    ensures
        r@ == dec_str(v as int),
    decreases v,
{
    if v < 10 {
        let mut out = String::new();
        push_digit(&mut out, v as u8);
        proof {
            assert(out@ =~= dec_str(v as int));
        }
        out
    } else {
        proof {
            vstd::arithmetic::div_mod::lemma_mod_bound(v as int, 10);
            assert(v as int / 10 < v) by (nonlinear_arith)
                requires
                    v >= 10,
            ;
        }
        let mut out = u64_dec_string(v / 10);
        push_digit(&mut out, (v % 10) as u8);
        out
    }
}

/// New Year's Day precedes New Year's Eve of the same year.
proof fn lemma_year_order(y: int)
    requires
        0 <= y <= 9999,
    ensures
        calendar_and_offset_ms(y, 1, 1, 0, 0, 0, 0) <= calendar_and_offset_ms(
            y,
            12,
            31,
            23,
            59,
            59,
            0,
        ),
{
    let a = days_from_civil(y, 1, 1);
    let b = days_from_civil(y, 12, 31);
    assert(a <= b) by {
        let era = (y - 1) / 400;
        let erb = y / 400;
        vstd::arithmetic::div_mod::lemma_fundamental_div_mod(y - 1, 400);
        vstd::arithmetic::div_mod::lemma_mod_bound(y - 1, 400);
        vstd::arithmetic::div_mod::lemma_fundamental_div_mod(y, 400);
        vstd::arithmetic::div_mod::lemma_mod_bound(y, 400);
        assert(era <= erb) by (nonlinear_arith)
            requires
                y - 1 == 400 * era + (y - 1) % 400 && y == 400 * erb + y % 400 && 0 <= (y - 1)
                    % 400 < 400 && 0 <= y % 400 < 400,
        ;
        let yoa = (y - 1) - era * 400;
        let yob = y - erb * 400;
        assert(era * 146097 + (yoa * 365 + yoa / 4 - yoa / 100) <= erb * 146097 + (yob * 365 + yob
            / 4 - yob / 100) + 305) by (nonlinear_arith)
            requires
                0 <= yoa < 400 && 0 <= yob < 400 && era <= erb && yoa == (y - 1) - era * 400
                    && yob == y - erb * 400 && era * 400 + yoa == y - 1 && erb * 400 + yob == y
                    && 0 <= yoa / 4 <= 99 && 0 <= yob / 4 <= 99 && 0 <= yoa / 100 <= 3 && 0 <= yob
                    / 100 <= 3,
        ;
        assert(0 <= yoa / 4 <= 99 && 0 <= yoa / 100 <= 3) by (nonlinear_arith)
            requires
                0 <= yoa < 400,
        ;
        assert(0 <= yob / 4 <= 99 && 0 <= yob / 100 <= 3) by (nonlinear_arith)
            requires
                0 <= yob < 400,
        ;
    }
}

/// The smaller of two mathematical integers.
pub open spec fn min_int(a: int, b: int) -> int {
    if a <= b {
        a
    } else {
        b
    }
}

/// The larger of two mathematical integers.
pub open spec fn max_int(a: int, b: int) -> int {
    if a >= b {
        a
    } else {
        b
    }
}

} // verus!


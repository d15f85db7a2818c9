//! Clock positions (`2:30`, `10:15`): the bearing notation the reference
//! model uses for radial street names.
use vstd::prelude::*;
use crate::err::{Error, Result};
use crate::time::{dec2, digit_char, digits_len, dval, is_digit, lemma_digits_len_eq, push_digit};

verus! {

/// A position on the 12-hour dial: an hour from 1 to 12 and a minute
/// from 0 to 59.  Hour 0 reads as 12.
#[derive(Debug, Clone, Copy, PartialEq, Eq, PartialOrd, Structural)]
pub struct ClockPos {
    hour: u8,
    minute: u8,
}

impl ClockPos {
    pub closed spec fn spec_hr(self) -> int {
        self.hour as int
    }

    pub closed spec fn spec_min(self) -> int {
        self.minute as int
    }

    /// Constructors only build positions on the dial.
    pub open spec fn wf(self) -> bool {
        1 <= self.spec_hr() <= 12 && 0 <= self.spec_min() < 60
    }

    pub fn hr(&self) -> (r: u8)
        ensures
            r as int == self.spec_hr(),
    {
        self.hour
    }

    pub fn min(&self) -> (r: u8)
        ensures
            r as int == self.spec_min(),
    {
        self.minute
    }

    /// Same as [`Self::from_hr_min`].
    pub fn new(hour: u16, minute: u16) -> (r: Result<ClockPos>)
        ensures
            hour <= 12 && minute < 60 ==> (r matches Ok(c) && c.wf() && c.spec_hr() == (
            if hour == 0 {
                12int
            } else {
                hour as int
            }) && c.spec_min() == minute),
            !(hour <= 12 && minute < 60) ==> (r matches Err(e) && e matches Error::BadClock(
                h,
                m,
            ) && h == hour && m == minute),
    {
        Self::from_hr_min(hour, minute)
    }

    /// Builds a position from an hour and a minute; hour 0 is read as 12,
    /// anything past the dial is rejected.
    pub fn from_hr_min(hour: u16, minute: u16) -> (r: Result<ClockPos>)
        ensures
            hour <= 12 && minute < 60 ==> (r matches Ok(c) && c.wf() && c.spec_hr() == (
            if hour == 0 {
                12int
            } else {
                hour as int
            }) && c.spec_min() == minute),
            !(hour <= 12 && minute < 60) ==> (r matches Err(e) && e matches Error::BadClock(
                h,
                m,
            ) && h == hour && m == minute),
    {
        if hour <= 12 && minute < 60 {
            let hour = if hour == 0 {
                12
            } else {
                hour
            };
            return Ok(ClockPos { hour: hour as u8, minute: minute as u8 });
        }
        Err(Error::BadClock(hour, minute))
    }

    /// Splits a packed `HHMM` value, so `215` reads as 2:15.
    pub fn unpack(packed: u16) -> (r: Result<ClockPos>)
        ensures
            packed / 100 <= 12 && packed % 100 < 60 ==> (r matches Ok(c) && c.wf() && c.spec_hr()
                == (if packed / 100 == 0 {
                12int
            } else {
                packed as int / 100
            }) && c.spec_min() == packed as int % 100),
            !(packed / 100 <= 12 && packed % 100 < 60) ==> (r matches Err(e) && e is BadClock),
    {
        Self::from_hr_min(packed / 100, packed % 100)
    }

    /// This position written as `H:MM`.
    pub fn to_hhmm_string(&self) -> (r: String)
        requires
            self.wf(),
        ensures
            r@ == hhmm_seq(self.spec_hr(), self.spec_min()),
    {
        let mut out = String::new();
        if self.hour >= 10 {
            proof {
                reveal_strlit("1");
            }
            out.append("1");
            push_clock_digit(&mut out, self.hour - 10);
        } else {
            push_clock_digit(&mut out, self.hour);
        }
        proof {
            reveal_strlit(":");
        }
        out.append(":");
        push_clock_digit(&mut out, self.minute / 10);
        push_clock_digit(&mut out, self.minute % 10);
        proof {
            assert(self.spec_min() / 10 % 10 == self.spec_min() / 10) by (nonlinear_arith)
                requires
                    0 <= self.spec_min() < 60,
            ;
            assert(out@ =~= hhmm_seq(self.spec_hr(), self.spec_min()));
        }
        out
    }

    /// Reads `HH:MM`, ignoring surrounding whitespace.  Every
    /// colon-separated field must be a number no larger than a 16-bit
    /// value; the first two fields are the hour and the minute.
    pub fn parse_str(s: &str) -> (r: Result<ClockPos>)
        ensures
            match clockpos_parse(s@) {
                Option::Some((h, m)) => if h <= 12 && m < 60 {
                    r matches Ok(c) && c.wf() && c.spec_hr() == (if h == 0 {
                        12int
                    } else {
                        h
                    }) && c.spec_min() == m
                } else {
                    r matches Err(e) && e matches Error::BadClock(bh, bm) && bh == h && bm == m
                },
                Option::None => r matches Err(e) && e is Other,
            },
    {
        let n = s.unicode_len();
        // Trim surrounding whitespace.
        let mut lo: usize = 0;
        loop
            invariant
                lo <= n,
                n == s@.len(),
                forall|j: int| 0 <= j < lo ==> is_space(#[trigger] s@[j]),
            ensures
                lo <= n,
                lo == n || !is_space(s@[lo as int]),
                forall|j: int| 0 <= j < lo ==> is_space(#[trigger] s@[j]),
            decreases n - lo,
        {
            if lo >= n {
                break ;
            }
            if is_space_char(s.get_char(lo)) {
                lo = lo + 1;
            } else {
                break ;
            }
        }
        let mut hi: usize = n;
        loop
            invariant
                lo <= hi <= n,
                n == s@.len(),
                lo == n || !is_space(s@[lo as int]),
                forall|j: int| hi <= j < n ==> is_space(#[trigger] s@[j]),
            ensures
                lo <= hi <= n,
                hi == lo || !is_space(s@[hi - 1]),
                forall|j: int| hi <= j < n ==> is_space(#[trigger] s@[j]),
            decreases hi,
        {
            if hi <= lo {
                break ;
            }
            if is_space_char(s.get_char(hi - 1)) {
                hi = hi - 1;
            } else {
                break ;
            }
        }
        let ghost t = s@.subrange(lo as int, hi as int);
        proof {
            if lo == n {
                assert(lo == hi);
            }
            lemma_trim_eq(s@, lo as int, hi as int);
            assert(t == trim_spec(s@));
        }
        // The hour: a run of digits that must stop at a colon.
        let (k0, v0) = scan_number(s, lo, hi);
        if k0 == 0 || lo + k0 >= hi {
            return Err(Error::msg("expected a value in the form of HH:MM"));
        }
        if s.get_char(lo + k0) != ':' {
            proof {
                assert(t[k0 as int] == s@[lo + k0]);
            }
            return Err(Error::msg("expected a value in the form of HH:MM"));
        }
        proof {
            assert(t[k0 as int] == s@[lo + k0]);
        }
        if v0 > 65535 {
            return Err(Error::msg("expected a value in the form of HH:MM"));
        }
        // The minute and any further fields, each a bounded number.
        let t2start = lo + k0 + 1;
        let ghost t2 = t.subrange(k0 + 1, t.len() as int);
        proof {
            assert(t2 =~= s@.subrange(t2start as int, hi as int));
        }
        let (k1, v1) = scan_number(s, t2start, hi);
        if !check_segs(s, t2start, hi) {
            return Err(Error::msg("expected a value in the form of HH:MM"));
        }
        proof {
            assert(segs_ok(t2));
            assert(k1 == digits_len(t2));
            assert(dec_val(t2.subrange(0, k1 as int)) <= 65535);
            assert(v1 == dec_val(t2.subrange(0, k1 as int)));
            assert(clockpos_parse(s@) == Some((v0 as int, v1 as int)));
        }
        Self::from_hr_min(v0 as u16, v1 as u16)
    }
}

/// `H:MM`: the hour without padding, a colon, and a two-digit minute.
pub open spec fn hhmm_seq(h: int, m: int) -> Seq<char> {
    (if h >= 10 {
        seq!['1', digit_char(h - 10)]
    } else {
        seq![digit_char(h)]
    }) + seq![':'] + dec2(m)
}

/// ASCII whitespace, the kind trimmed around clock positions.
pub open spec fn is_space(c: char) -> bool {
    c == ' ' || c == '\t' || c == '\n' || c == '\r'
}

/// `s` without leading whitespace.
pub open spec fn trim_front(s: Seq<char>) -> Seq<char>
    decreases s.len(),
{
    if s.len() > 0 && is_space(s[0]) {
        trim_front(s.subrange(1, s.len() as int))
    } else {
        s
    }
}

/// `s` without trailing whitespace.
pub open spec fn trim_back(s: Seq<char>) -> Seq<char>
    decreases s.len(),
{
    if s.len() > 0 && is_space(s[s.len() - 1]) {
        trim_back(s.subrange(0, s.len() - 1))
    } else {
        s
    }
}

/// `s` without surrounding whitespace.
pub open spec fn trim_spec(s: Seq<char>) -> Seq<char> {
    trim_back(trim_front(s))
}

/// The number named by a digit string, most significant digit first.
pub open spec fn dec_val(s: Seq<char>) -> int
    decreases s.len(),
{
    if s.len() == 0 {
        0
    } else {
        dec_val(s.subrange(0, s.len() - 1)) * 10 + dval(s[s.len() - 1])
    }
}

/// After a colon there must be one more number, and then possibly more
/// colon-separated numbers; every one must fit in sixteen bits.
pub open spec fn segs_ok(s: Seq<char>) -> bool
    decreases s.len(),
{
    let k = digits_len(s);
    &&& k >= 1
    &&& dec_val(s.subrange(0, k)) <= 65535
    &&& (k >= s.len() || (s[k] == ':' && segs_ok(s.subrange(k + 1, s.len() as int))))
}

/// The hour and minute named by a trimmed `HH:MM[:more]` string, or
/// `None` when the text does not have that form.
pub open spec fn clockpos_parse(s: Seq<char>) -> Option<(int, int)> {
    let t = trim_spec(s);
    let k0 = digits_len(t);
    if k0 < 1 || k0 >= t.len() || t[k0] != ':' {
        None
    } else if dec_val(t.subrange(0, k0)) > 65535 {
        None
    } else {
        let t2 = t.subrange(k0 + 1, t.len() as int);
        if !segs_ok(t2) {
            None
        } else {
            Some((dec_val(t.subrange(0, k0)), dec_val(t2.subrange(0, digits_len(t2)))))
        }
    }
}

/// ASCII whitespace test on a character value.
fn is_space_char(c: char) -> (r: bool)
    ensures
        r == is_space(c),
{
    c == ' ' || c == '\t' || c == '\n' || c == '\r'
}

/// Writes one digit of a clock value.
fn push_clock_digit(out: &mut String, d: u8)
    requires
        d < 10,
    ensures
        final(out)@ == old(out)@ + seq![digit_char(d as int)],
{
    crate::time::push_digit(out, d);
}

/// Scans the digit run starting at `from` (stopping at `hi`) and its
/// value, capped just past sixteen bits.
fn scan_number(s: &str, from: usize, hi: usize) -> (r: (usize, u32))
    requires
        from <= hi <= s@.len(),
    ensures
        ({
            let part = s@.subrange(from as int, hi as int);
            let k = digits_len(part);
            &&& r.0 == k
            &&& from + r.0 <= hi
            &&& (dec_val(part.subrange(0, k)) <= 65535 ==> r.1 == dec_val(part.subrange(0, k)))
            &&& (dec_val(part.subrange(0, k)) > 65535 ==> r.1 > 65535)
        }),
{
    let ghost part = s@.subrange(from as int, hi as int);
    let mut k: usize = 0;
    let mut val: u32 = 0;
    loop
        invariant
            from + k <= hi <= s@.len(),
            forall|j: int| 0 <= j < k ==> is_digit(#[trigger] part[j]),
            part == s@.subrange(from as int, hi as int),
            dec_val(part.subrange(0, k as int)) <= 65535 ==> val == dec_val(
                part.subrange(0, k as int),
            ),
            dec_val(part.subrange(0, k as int)) > 65535 ==> val > 65535,
            val <= 655359,
        ensures
            from + k <= hi,
            forall|j: int| 0 <= j < k ==> is_digit(#[trigger] part[j]),
            from + k == hi || !is_digit(part[k as int]),
            dec_val(part.subrange(0, k as int)) <= 65535 ==> val == dec_val(
                part.subrange(0, k as int),
            ),
            dec_val(part.subrange(0, k as int)) > 65535 ==> val > 65535,
        decreases hi - from - k,
    {
        if from + k >= hi {
            break ;
        }
        let c = s.get_char(from + k);
        let u = c as u32;
        if u < 48 || u > 57 {
            proof {
                assert(part[k as int] == s@[from + k]);
            }
            break ;
        }
        let d = u - 48;
        proof {
            let pre = part.subrange(0, k as int);
            let pre2 = part.subrange(0, k + 1);
            assert(pre2.subrange(0, k as int) =~= pre);
            assert(part[k as int] == s@[from + k]);
            assert(dec_val(pre2) == dec_val(pre) * 10 + dval(part[k as int]));
            lemma_dec_val_nonneg(pre);
        }
        if val > 65535 {
            val = 65536;
        } else {
            val = val * 10 + d;
        }
        k = k + 1;
    }
    proof {
        lemma_digits_len_eq(part, k as int);
    }
    (k, val)
}

/// Checks the colon-separated number fields from `at` to `hi`.
fn check_segs(s: &str, at: usize, hi: usize) -> (r: bool)
    requires
        at <= hi <= s@.len(),
    ensures
        r == segs_ok(s@.subrange(at as int, hi as int)),
    decreases hi - at,
{
    let ghost seg = s@.subrange(at as int, hi as int);
    let (k, v) = scan_number(s, at, hi);
    if k == 0 {
        return false;
    }
    if v > 65535 {
        return false;
    }
    if at + k == hi {
        return true;
    }
    if s.get_char(at + k) != ':' {
        proof {
            assert(seg[k as int] == s@[at + k]);
        }
        return false;
    }
    proof {
        assert(seg[k as int] == s@[at + k]);
    }
    let r = check_segs(s, at + k + 1, hi);
    proof {
        assert(seg.subrange(k + 1, seg.len() as int) =~= s@.subrange(at + k + 1, hi as int));
    }
    r
}

/// Digit values never make a negative number.
proof fn lemma_dec_val_nonneg(s: Seq<char>)
    requires
        forall|j: int| 0 <= j < s.len() ==> is_digit(#[trigger] s[j]),
    ensures
        dec_val(s) >= 0,
    decreases s.len(),
{
    if s.len() > 0 {
        let pre = s.subrange(0, s.len() - 1);
        assert(forall|j: int| 0 <= j < pre.len() ==> is_digit(#[trigger] pre[j]));
        lemma_dec_val_nonneg(pre);
    }
}



/// The trimmed window of `s` matches the recursive trimming rule.
proof fn lemma_trim_eq(s: Seq<char>, lo: int, hi: int)
    requires
        0 <= lo <= hi <= s.len(),
        forall|j: int| 0 <= j < lo ==> is_space(#[trigger] s[j]),
        forall|j: int| hi <= j < s.len() ==> is_space(#[trigger] s[j]),
        lo == s.len() || !is_space(s[lo]),
        hi == lo || !is_space(s[hi - 1]),
    ensures
        trim_spec(s) == s.subrange(lo, hi),
{
    lemma_trim_front_eq(s, lo);
    let u = s.subrange(lo, s.len() as int);
    assert(forall|j: int| hi - lo <= j < u.len() ==> is_space(#[trigger] u[j]));
    lemma_trim_back_eq(u, hi - lo);
    assert(u.subrange(0, hi - lo) =~= s.subrange(lo, hi));
}

/// Dropping each leading space one at a time reaches the same window.
proof fn lemma_trim_front_eq(s: Seq<char>, lo: int)
    requires
        0 <= lo <= s.len(),
        forall|j: int| 0 <= j < lo ==> is_space(#[trigger] s[j]),
        lo == s.len() || !is_space(s[lo]),
    ensures
        trim_front(s) == s.subrange(lo, s.len() as int),
    decreases lo,
{
    if lo == 0 {
        if s.len() > 0 && is_space(s[0]) {
            assert(false);
        }
        assert(s.subrange(0, s.len() as int) =~= s);
    } else {
        assert(is_space(s[0]));
        let s1 = s.subrange(1, s.len() as int);
        assert(forall|j: int| 0 <= j < lo - 1 ==> is_space(#[trigger] s1[j]));
        lemma_trim_front_eq(s1, lo - 1);
        assert(s1.subrange(lo - 1, s1.len() as int) =~= s.subrange(lo, s.len() as int));
    }
}

/// Dropping each trailing space one at a time reaches the same window.
proof fn lemma_trim_back_eq(s: Seq<char>, hi: int)
    requires
        0 <= hi <= s.len(),
        forall|j: int| hi <= j < s.len() ==> is_space(#[trigger] s[j]),
        hi == 0 || !is_space(s[hi - 1]),
    ensures
        trim_back(s) == s.subrange(0, hi),
    decreases s.len(),
{
    if hi == s.len() {
        if s.len() > 0 && is_space(s[s.len() - 1]) {
            assert(false);
        }
        assert(s.subrange(0, s.len() as int) =~= s);
    } else {
        assert(is_space(s[s.len() - 1]));
        let s1 = s.subrange(0, s.len() - 1);
        assert(forall|j: int| hi <= j < s1.len() ==> is_space(#[trigger] s1[j]));
        lemma_trim_back_eq(s1, hi);
        assert(s1.subrange(0, hi) =~= s.subrange(0, hi));
    }
}

} // verus!

verus! {

impl core::str::FromStr for ClockPos {
    type Err = Error;

    fn from_str(s: &str) -> core::result::Result<ClockPos, Error> {
        ClockPos::parse_str(s)
    }
}

} // verus!

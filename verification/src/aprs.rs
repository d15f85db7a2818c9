//! APRS position reports: the wire grammar for uncompressed position
//! packets, and the bounded, order-enforcing packet cache.
//!
//! A packet is `CALLSIGN>PATH:info`.  An info field opening with `!` or
//! `=` (or `/` or `@` after a seven-character timestamp) carries an
//! uncompressed position: latitude `DDMM.hhN`, a symbol table character,
//! longitude `DDDMM.hhE`, a symbol code, an optional `ccc/sss`
//! course-and-speed block, and a comment.  Anything else is a parse
//! failure; the cache keeps failures as log entries.
use vstd::prelude::*;
use crate::err::{Error, Result};
use crate::time::{digit_at, dval, find_char, is_digit, scan_for_char, two_digits_at, Timestamp};

verus! {

/// The fields of a parsed position report, in mathematical form: the
/// callsign, latitude and longitude in hundredths of a minute of arc
/// (north and east positive), the optional course and speed as written on
/// the wire, and the optional comment.
pub type AprsFields = (Seq<char>, int, int, Option<int>, Option<int>, Option<Seq<char>>);

/// A position in integer wire units: hundredths of a minute of arc,
/// north and east positive; course in degrees and speed in knots exactly
/// as transmitted.
#[derive(Debug, PartialEq)]
pub struct Position {
    pub lat_cmin: i32,
    pub lng_cmin: i32,
    pub course_deg: Option<u16>,
    pub speed_kn: Option<u16>,
}

/// One station's position report.
#[derive(Debug, PartialEq)]
pub struct PositionReport {
    pub src_callsign: String,
    pub pos: Position,
    pub comment: Option<String>,
}

/// A parsed packet; position reports are the only packets the core reads.
#[derive(Debug, Clone, PartialEq)]
pub enum Packet {
    Position(PositionReport),
}

/// Whether a report carries exactly the given mathematical fields.
pub open spec fn report_is(rep: PositionReport, f: AprsFields) -> bool {
    &&& rep.src_callsign@ == f.0
    &&& rep.pos.lat_cmin as int == f.1
    &&& rep.pos.lng_cmin as int == f.2
    &&& match (rep.pos.course_deg, f.3) {
        (Option::Some(x), Option::Some(y)) => x as int == y,
        (Option::None, Option::None) => true,
        _ => false,
    }
    &&& match (rep.pos.speed_kn, f.4) {
        (Option::Some(x), Option::Some(y)) => x as int == y,
        (Option::None, Option::None) => true,
        _ => false,
    }
    &&& match (rep.comment, f.5) {
        (Option::Some(x), Option::Some(y)) => x@ == y,
        (Option::None, Option::None) => true,
        _ => false,
    }
}

/// Letters, digits and the dash: what a callsign may hold.
pub open spec fn is_callsign_char(c: char) -> bool {
    (65 <= c as int <= 90) || (97 <= c as int <= 122) || (48 <= c as int <= 57) || c == '-'
}

pub open spec fn callsign_ok(cs: Seq<char>) -> bool {
    cs.len() >= 1 && forall|i: int| 0 <= i < cs.len() ==> is_callsign_char(#[trigger] cs[i])
}

/// The value of the two digits at `i`.
pub open spec fn dv2_at(s: Seq<char>, i: int) -> int {
    dval(s[i]) * 10 + dval(s[i + 1])
}

/// The value of the three digits at `i`.
pub open spec fn dv3_at(s: Seq<char>, i: int) -> int {
    dval(s[i]) * 100 + dval(s[i + 1]) * 10 + dval(s[i + 2])
}

/// Whether `n` digits stand at `i`.
pub open spec fn digits_at(s: Seq<char>, i: int, n: int) -> bool {
    forall|j: int| i <= j < i + n ==> is_digit(#[trigger] s[j])
}

/// The unsigned latitude named by `DDMM.hh` at `p`, in hundredths of a
/// minute.
pub open spec fn lat_abs_cmin(info: Seq<char>, p: int) -> int {
    dv2_at(info, p) * 6000 + dv2_at(info, p + 2) * 100 + dv2_at(info, p + 5)
}

/// A latitude field `DDMM.hhN` or `DDMM.hhS` at `p`, within ninety
/// degrees of the equator.
pub open spec fn lat_ok(info: Seq<char>, p: int) -> bool {
    &&& digits_at(info, p, 4)
    &&& info[p + 4] == '.'
    &&& digits_at(info, p + 5, 2)
    &&& (info[p + 7] == 'N' || info[p + 7] == 'S')
    &&& lat_abs_cmin(info, p) <= 540000
}

/// The unsigned longitude named by `DDDMM.hh` at `q`.
pub open spec fn lng_abs_cmin(info: Seq<char>, q: int) -> int {
    dv3_at(info, q) * 6000 + dv2_at(info, q + 3) * 100 + dv2_at(info, q + 6)
}

/// A longitude field `DDDMM.hhE` or `DDDMM.hhW` at `q`, within half a
/// turn of the prime meridian.
pub open spec fn lng_ok(info: Seq<char>, q: int) -> bool {
    &&& digits_at(info, q, 5)
    &&& info[q + 5] == '.'
    &&& digits_at(info, q + 6, 2)
    &&& (info[q + 8] == 'E' || info[q + 8] == 'W')
    &&& lng_abs_cmin(info, q) <= 1080000
}

/// Whether a `ccc/sss` course-and-speed block stands at `b`.
pub open spec fn cs_present(info: Seq<char>, b: int) -> bool {
    &&& info.len() >= b + 7
    &&& digits_at(info, b, 3)
    &&& info[b + 3] == '/'
    &&& digits_at(info, b + 4, 3)
}

/// The fields of the position block starting at index `p` of the packet
/// text `s`, for the packet whose callsign is `cs`.
pub open spec fn pos_fields(cs: Seq<char>, s: Seq<char>, p: int) -> Option<AprsFields> {
    if s.len() < p + 19 {
        None
    } else if !(lat_ok(s, p) && lng_ok(s, p + 9)) {
        None
    } else {
        let lat = if s[p + 7] == 'S' {
            -lat_abs_cmin(s, p)
        } else {
            lat_abs_cmin(s, p)
        };
        let lng = if s[p + 17] == 'W' {
            -lng_abs_cmin(s, p + 9)
        } else {
            lng_abs_cmin(s, p + 9)
        };
        let b = p + 19;
        if cs_present(s, b) {
            let cmt = if b + 7 < s.len() {
                Some(s.subrange(b + 7, s.len() as int))
            } else {
                None
            };
            Some((cs, lat, lng, Some(dv3_at(s, b)), Some(dv3_at(s, b + 4)), cmt))
        } else {
            let cmt = if b < s.len() {
                Some(s.subrange(b, s.len() as int))
            } else {
                None
            };
            Some((cs, lat, lng, None, None, cmt))
        }
    }
}

/// The fields of a position packet, or `None` for any text that is not
/// an uncompressed position report.
pub open spec fn aprs_parse_spec(s: Seq<char>) -> Option<AprsFields> {
    let gt = find_char(s, '>');
    if gt < 1 || gt >= s.len() || !callsign_ok(s.subrange(0, gt)) {
        None
    } else {
        let rest = s.subrange(gt + 1, s.len() as int);
        let colon = find_char(rest, ':');
        if colon >= rest.len() {
            None
        } else {
            let i0 = gt + 1 + colon + 1;
            if i0 < s.len() && (s[i0] == '!' || s[i0] == '=') {
                pos_fields(s.subrange(0, gt), s, i0 + 1)
            } else if s.len() - i0 >= 8 && (s[i0] == '/' || s[i0] == '@') {
                pos_fields(s.subrange(0, gt), s, i0 + 8)
            } else {
                None
            }
        }
    }
}

impl Packet {
    /// Reads one packet.  Exactly the uncompressed position reports of
    /// [`aprs_parse_spec`] parse; everything else is an [`Error::AprsParse`].
    #[verifier::rlimit(100)]
    pub fn parse(data: &str) -> (r: Result<Packet>)
        ensures
            match aprs_parse_spec(data@) {
                Option::Some(f) => r matches Ok(pk) && pk matches Packet::Position(rep)
                    && report_is(rep, f),
                Option::None => r matches Err(e) && e matches Error::AprsParse { what, why }
                    && what@ == data@ && why@ == "not an uncompressed position report"@,
            },
    {
        let n = data.unicode_len();
        let gt = scan_for_char(data, 0, n, '>');
        proof {
            assert(data@.subrange(0, n as int) =~= data@);
        }
        if gt < 1 || gt >= n {
            return Err(Self::parse_err(data));
        }
        // The callsign: letters, digits and dashes only.
        let mut i: usize = 0;
        loop
            invariant
                i <= gt < n == data@.len(),
                forall|j: int| 0 <= j < i ==> is_callsign_char(#[trigger] data@[j]),
            ensures
                i <= gt,
                i == gt || !is_callsign_char(data@[i as int]),
                forall|j: int| 0 <= j < i ==> is_callsign_char(#[trigger] data@[j]),
            decreases gt - i,
        {
            if i >= gt {
                break ;
            }
            let c = data.get_char(i);
            let u = c as u32;
            if (65 <= u && u <= 90) || (97 <= u && u <= 122) || (48 <= u && u <= 57) || c == '-' {
                i = i + 1;
            } else {
                break ;
            }
        }
        let ghost cs = data@.subrange(0, gt as int);
        if i < gt {
            proof {
                assert(cs[i as int] == data@[i as int]);
                assert(!callsign_ok(cs));
            }
            return Err(Self::parse_err(data));
        }
        proof {
            assert(forall|j: int| 0 <= j < gt ==> cs[j] == data@[j]);
            assert(callsign_ok(cs));
        }
        let colon = scan_for_char(data, gt + 1, n, ':');
        let ghost rest = data@.subrange(gt + 1, n as int);
        proof {
            assert(rest =~= data@.subrange(gt + 1, data@.len() as int));
            lemma_find_shift(data@, gt as int, n as int, colon as int, ':');
        }
        if colon >= n {
            return Err(Self::parse_err(data));
        }
        let i0 = colon + 1;
        let p: usize;
        if i0 < n && {
            let c = data.get_char(i0);
            c == '!' || c == '='
        } {
            p = i0 + 1;
        } else if n - i0 >= 8 && {
            let c = data.get_char(i0);
            c == '/' || c == '@'
        } {
            p = i0 + 8;
        } else {
            return Err(Self::parse_err(data));
        }
        proof {
            assert(aprs_parse_spec(data@) == pos_fields(cs, data@, p as int));
        }
        Self::parse_pos(data, gt, p)
    }

    /// Reads the position block starting at `p`, for a packet whose
    /// header has already been read.
    #[verifier::rlimit(100)]
    fn parse_pos(data: &str, gt: usize, p: usize) -> (r: Result<Packet>)
        requires
            0 < gt < p <= data@.len(),
            aprs_parse_spec(data@) == pos_fields(data@.subrange(0, gt as int), data@, p as int),
        ensures
            match aprs_parse_spec(data@) {
                Option::Some(f) => r matches Ok(pk) && pk matches Packet::Position(rep)
                    && report_is(rep, f),
                Option::None => r matches Err(e) && e matches Error::AprsParse { what, why }
                    && what@ == data@ && why@ == "not an uncompressed position report"@,
            },
    {
        let n = data.unicode_len();
        if n - p < 19 {
            return Err(Self::parse_err(data));
        }
        // Latitude `DDMM.hhN`.
        let latdeg = match two_digits_at(data, p) {
            Some(v) => v,
            None => {
                return Err(Self::parse_err(data));
            },
        };
        let latmin = match two_digits_at(data, p + 2) {
            Some(v) => v,
            None => {
                return Err(Self::parse_err(data));
            },
        };
        if data.get_char(p + 4) != '.' {
            return Err(Self::parse_err(data));
        }
        let lathh = match two_digits_at(data, p + 5) {
            Some(v) => v,
            None => {
                return Err(Self::parse_err(data));
            },
        };
        let lathemi = data.get_char(p + 7);
        if !(lathemi == 'N' || lathemi == 'S') {
            return Err(Self::parse_err(data));
        }
        let lat_abs: u32 = latdeg as u32 * 6000 + latmin as u32 * 100 + lathh as u32;
        if lat_abs > 540000 {
            return Err(Self::parse_err(data));
        }
        // Longitude `DDDMM.hhE` after the symbol table character.
        let q = p + 9;
        let lngdeg = match (digit_at(data, q), digit_at(data, q + 1), digit_at(data, q + 2)) {
            (Some(a), Some(b), Some(c)) => a as u32 * 100 + b as u32 * 10 + c as u32,
            _ => {
                return Err(Self::parse_err(data));
            },
        };
        let lngmin = match two_digits_at(data, q + 3) {
            Some(v) => v,
            None => {
                return Err(Self::parse_err(data));
            },
        };
        if data.get_char(q + 5) != '.' {
            return Err(Self::parse_err(data));
        }
        let lnghh = match two_digits_at(data, q + 6) {
            Some(v) => v,
            None => {
                return Err(Self::parse_err(data));
            },
        };
        let lnghemi = data.get_char(q + 8);
        if !(lnghemi == 'E' || lnghemi == 'W') {
            return Err(Self::parse_err(data));
        }
        let lng_abs: u32 = lngdeg * 6000 + lngmin as u32 * 100 + lnghh as u32;
        if lng_abs > 1080000 {
            return Err(Self::parse_err(data));
        }
        proof {
            assert(lat_ok(data@, p as int));
            assert(lng_ok(data@, p + 9));
            assert(lat_abs == lat_abs_cmin(data@, p as int));
            assert(lng_abs == lng_abs_cmin(data@, p + 9));
        }
        let lat: i32 = if lathemi == 'S' {
            -(lat_abs as i32)
        } else {
            lat_abs as i32
        };
        let lng: i32 = if lnghemi == 'W' {
            -(lng_abs as i32)
        } else {
            lng_abs as i32
        };
        // Optional `ccc/sss` course and speed, then the comment.
        let b = p + 19;
        let mut course: Option<u16> = None;
        let mut speed: Option<u16> = None;
        let mut cb = b;
        if n - b >= 7 {
            let c3 = (digit_at(data, b), digit_at(data, b + 1), digit_at(data, b + 2));
            let s3 = (digit_at(data, b + 4), digit_at(data, b + 5), digit_at(data, b + 6));
            let slash = data.get_char(b + 3) == '/';
            match (c3, s3) {
                ((Some(ca), Some(cm), Some(cl)), (Some(sa), Some(sm), Some(sl))) => {
                    if slash {
                        course = Some(ca as u16 * 100 + cm as u16 * 10 + cl as u16);
                        speed = Some(sa as u16 * 100 + sm as u16 * 10 + sl as u16);
                        cb = b + 7;
                    }
                },
                _ => {},
            }
        }
        proof {
            if cs_present(data@, b as int) {
                assert(course is Some && speed is Some);
            } else {
                assert(course is None && speed is None);
            }
        }
        let comment: Option<String> = if cb < n {
            Some(data.substring_char(cb, n).to_owned())
        } else {
            None
        };
        let rep = PositionReport {
            src_callsign: data.substring_char(0, gt).to_owned(),
            pos: Position { lat_cmin: lat, lng_cmin: lng, course_deg: course, speed_kn: speed },
            comment,
        };
        proof {
            let f = aprs_parse_spec(data@).unwrap();
            assert(report_is(rep, f));
        }
        Ok(Packet::Position(rep))
    }

    /// The parse failure for `data`, carrying the offending text.
    fn parse_err(data: &str) -> (r: Error)
        ensures
            r matches Error::AprsParse { what, why } && what@ == data@ && why@
                == "not an uncompressed position report"@,
    {
        Error::AprsParse {
            what: data.to_owned(),
            why: "not an uncompressed position report".to_owned(),
        }
    }

    /// The source callsign of the packet.
    pub fn srccall(&self) -> (r: &str)
        ensures
            self matches Packet::Position(rep) && r@ == rep.src_callsign@,
    {
        match self {
            Packet::Position(rep) => rep.src_callsign.as_str(),
        }
    }
}

/// Shifting a scan window: the first `c` at or after `gt + 1` stands at
/// the same relative place in the window as in the whole text.
proof fn lemma_find_shift(s: Seq<char>, gt: int, n: int, colon: int, c: char)
    requires
        0 <= gt < n == s.len(),
        gt + 1 <= colon <= n,
        colon == gt + 1 + find_char(s.subrange(gt + 1, n), c),
    ensures
        find_char(s.subrange(gt + 1, s.len() as int), c) == colon - (gt + 1),
{
    assert(s.subrange(gt + 1, n) =~= s.subrange(gt + 1, s.len() as int));
}

} // verus!

verus! {

impl Clone for Position {
    /// An exact copy.
    fn clone(&self) -> (r: Position)
        ensures
            r == *self,
    {
        Position {
            lat_cmin: self.lat_cmin,
            lng_cmin: self.lng_cmin,
            course_deg: match self.course_deg {
                Option::Some(v) => Some(v),
                Option::None => None,
            },
            speed_kn: match self.speed_kn {
                Option::Some(v) => Some(v),
                Option::None => None,
            },
        }
    }
}

impl Clone for PositionReport {
    /// A copy whose text fields read the same.
    fn clone(&self) -> (r: PositionReport)
        ensures
            r.src_callsign@ == self.src_callsign@,
            r.pos == self.pos,
            match (r.comment, self.comment) {
                (Option::Some(a), Option::Some(b)) => a@ == b@,
                (Option::None, Option::None) => true,
                _ => false,
            },
    {
        PositionReport {
            src_callsign: self.src_callsign.clone(),
            pos: self.pos.clone(),
            comment: match &self.comment {
                Option::Some(c) => Some(c.clone()),
                Option::None => None,
            },
        }
    }
}

/// One remembered packet: a stable identity, the worker's receive time,
/// the raw text, and the parse outcome.
#[derive(Debug)]
pub struct CacheEntry {
    pub id: u64,
    pub ts: Timestamp,
    pub raw: String,
    pub parsed: Result<Packet>,
}

/// Whether a cache entry remembers exactly the packet `raw` received at
/// `ts` under identity `id`: its parse field agrees with the grammar.
pub open spec fn entry_matches(e: CacheEntry, id: int, ts: Timestamp, raw: Seq<char>) -> bool {
    &&& e.id == id
    &&& e.ts == ts
    &&& e.raw@ == raw
    &&& match (e.parsed, aprs_parse_spec(raw)) {
        (Result::Ok(pk), Option::Some(f)) => pk matches Packet::Position(rep) && report_is(
            rep,
            f,
        ),
        (Result::Err(err), Option::None) => err matches Error::AprsParse { what, why } && what@
            == raw && why@ == "not an uncompressed position report"@,
        _ => false,
    }
}

/// Whether a latest-position slot holds exactly the fields `f` stamped
/// at `ts`.
pub open spec fn slot_matches(x: (String, Timestamp, PositionReport), f: AprsFields, ts: Timestamp) -> bool {
    x.0@ == f.0 && x.1 == ts && report_is(x.2, f)
}

/// The index of the slot for source `k`, or the length when the source
/// is unknown.
pub open spec fn find_key(s: Seq<(String, Timestamp, PositionReport)>, k: Seq<char>) -> int
    decreases s.len(),
{
    if s.len() == 0 {
        0
    } else if s[0].0@ == k {
        0
    } else {
        1 + find_key(s.subrange(1, s.len() as int), k)
    }
}

/// Scanning the slots in order agrees with [`find_key`].
proof fn lemma_find_key_eq(s: Seq<(String, Timestamp, PositionReport)>, k: Seq<char>, i: int)
    requires
        0 <= i <= s.len(),
        forall|j: int| 0 <= j < i ==> (#[trigger] s[j]).0@ != k,
        i == s.len() || s[i].0@ == k,
    ensures
        find_key(s, k) == i,
    decreases i,
{
    if i == 0 {
    } else {
        let s1 = s.subrange(1, s.len() as int);
        assert(forall|j: int| 0 <= j < i - 1 ==> (#[trigger] s1[j]).0@ != k);
        assert(i - 1 == s1.len() || s1[i - 1].0@ == k);
        lemma_find_key_eq(s1, k, i - 1);
    }
}

/// The bounded, order-enforcing packet cache: a FIFO recency buffer of
/// the most recent packets and a latest-position slot per source.
#[derive(Debug)]
pub struct Log {
    /// The most recent position per source callsign.
    lastpos: Vec<(String, Timestamp, PositionReport)>,
    /// The most recent packets, oldest first.
    recent: Vec<CacheEntry>,
    /// How many recent packets are retained.
    maxlen: usize,
    /// The next never-used entry identity.
    nextid: u64,
}

impl Log {
    pub closed spec fn recent_seq(self) -> Seq<CacheEntry> {
        self.recent@
    }

    pub closed spec fn lastpos_seq(self) -> Seq<(String, Timestamp, PositionReport)> {
        self.lastpos@
    }

    pub closed spec fn cap(self) -> int {
        self.maxlen as int
    }

    pub closed spec fn next_id(self) -> int {
        self.nextid as int
    }

    /// The cache invariant: the buffer respects its capacity, entries are
    /// chronological with fresh increasing identities and honest parse
    /// fields, and each source has at most one latest-position slot.
    pub open spec fn wf(self) -> bool {
        &&& 1 <= self.cap()
    &&& self.recent_seq().len() <= self.cap()
        &&& forall|i: int, j: int|
            0 <= i < j < self.recent_seq().len() ==> (#[trigger] self.recent_seq()[i]).ts@
                <= (#[trigger] self.recent_seq()[j]).ts@
        &&& forall|i: int, j: int|
            0 <= i < j < self.recent_seq().len() ==> (#[trigger] self.recent_seq()[i]).id
                < (#[trigger] self.recent_seq()[j]).id
        &&& forall|i: int|
            0 <= i < self.recent_seq().len() ==> (#[trigger] self.recent_seq()[i]).id
                < self.next_id()
        &&& forall|i: int|
            0 <= i < self.recent_seq().len() ==> entry_matches(
                #[trigger] self.recent_seq()[i],
                self.recent_seq()[i].id as int,
                self.recent_seq()[i].ts,
                self.recent_seq()[i].raw@,
            )
        &&& forall|i: int, j: int|
            0 <= i < j < self.lastpos_seq().len() ==> (#[trigger] self.lastpos_seq()[i]).0@
                != (#[trigger] self.lastpos_seq()[j]).0@
    }

    /// A fresh cache keeping up to `maxlen` recent packets.
    pub fn with_capacity(maxlen: usize) -> (r: Log)
        requires
            maxlen >= 1,
        ensures
            r.wf(),
            r.cap() == maxlen,
            r.recent_seq().len() == 0,
            r.lastpos_seq().len() == 0,
            r.next_id() == 1,
    {
        Log { lastpos: Vec::new(), recent: Vec::new(), maxlen, nextid: 1 }
    }

    /// A fresh cache with the default capacity of 32 recent packets.
    pub fn new() -> (r: Log)
        ensures
            r.wf(),
            r.cap() == 32,
            r.recent_seq().len() == 0,
            r.lastpos_seq().len() == 0,
            r.next_id() == 1,
    {
        Self::with_capacity(32)
    }

    /// How many sources have a latest position.
    pub fn station_count(&self) -> (r: usize)
        ensures
            r == self.lastpos_seq().len(),
    {
        self.lastpos.len()
    }

    /// The latest position per source, in no promised order.
    pub fn last_positions(&self) -> (r: &Vec<(String, Timestamp, PositionReport)>)
        ensures
            r@ == self.lastpos_seq(),
    {
        &self.lastpos
    }

    /// The retained packets, oldest first.
    pub fn recent_entries(&self) -> (r: &Vec<CacheEntry>)
        ensures
            r@ == self.recent_seq(),
    {
        &self.recent
    }

    /// Accepts `raw` received at `ts`: parses it, upserts the source's
    /// latest-position slot when it is a position no older than the
    /// stored one, and appends it to the recency buffer, evicting the
    /// oldest entry at capacity.  A timestamp older than the newest
    /// entry is rejected with an ordering error and no change at all.
    #[verifier::rlimit(100)]
    pub fn push(&mut self, ts: Timestamp, raw: String) -> (r: Result<()>)
        requires
            old(self).wf(),
            old(self).next_id() < u64::MAX,
        ensures
            final(self).wf(),
            (old(self).recent_seq().len() > 0 && ts@ < old(self).recent_seq().last().ts@) ==> {
                &&& r matches Err(e) && e is AprsOrder
                &&& *final(self) == *old(self)
            },
            !(old(self).recent_seq().len() > 0 && ts@ < old(self).recent_seq().last().ts@) ==> {
                &&& r is Ok
                &&& accepted_post(*old(self), *final(self), ts, raw@)
            },
    {
        let ghost pre = *old(self);
        let ghost rawv = raw@;
        if self.recent.len() > 0 {
            let last_ts = self.recent[self.recent.len() - 1].ts;
            if ts.as_unix_millis() < last_ts.as_unix_millis() {
                return Err(Error::AprsOrder {
                    new_ts: crate::time::u64_dec_string(ts.as_unix_millis()),
                    last_ts: crate::time::u64_dec_string(last_ts.as_unix_millis()),
                });
            }
        }
        let parsed = Packet::parse(raw.as_str());
        match &parsed {
            Ok(pk) => {
                match pk {
                    Packet::Position(rep) => {
                        let key = rep.src_callsign.clone();
                        let mut i: usize = 0;
                        let n = self.lastpos.len();
                        loop
                            invariant
                                i <= n == self.lastpos@.len(),
                                forall|j: int|
                                    0 <= j < i ==> (#[trigger] self.lastpos@[j]).0@ != key@,
                            ensures
                                i <= n,
                                i == n || self.lastpos@[i as int].0@ == key@,
                                forall|j: int|
                                    0 <= j < i ==> (#[trigger] self.lastpos@[j]).0@ != key@,
                            decreases n - i,
                        {
                            if i >= n {
                                break ;
                            }
                            if self.lastpos[i].0.eq(&key) {
                                break ;
                            }
                            i = i + 1;
                        }
                        proof {
                            lemma_find_key_eq(self.lastpos@, key@, i as int);
                            let f = aprs_parse_spec(rawv).unwrap();
                            assert(key@ == f.0);
                            assert(find_key(pre.lastpos_seq(), f.0) == i);
                        }
                        if i < n {
                            let stored_ts = self.lastpos[i].1;
                            if ts.as_unix_millis() >= stored_ts.as_unix_millis() {
                                self.lastpos.set(i, (key, ts, rep.clone()));
                                proof {
                                    let f = aprs_parse_spec(rawv).unwrap();
                                    assert(slot_matches(self.lastpos@[i as int], f, ts));
                                }
                            }
                        } else {
                            self.lastpos.push((key, ts, rep.clone()));
                            proof {
                                let f = aprs_parse_spec(rawv).unwrap();
                                assert(slot_matches(self.lastpos@.last(), f, ts));
                                assert(self.lastpos@.subrange(0, pre.lastpos_seq().len() as int)
                                    =~= pre.lastpos_seq());
                            }
                        }
                    },
                }
            },
            Err(_) => {},
        }
        let ghost lp_done = self.lastpos@;
        if self.recent.len() >= self.maxlen {
            self.recent.remove(0);
            proof {
                assert(self.recent@ =~= pre.recent_seq().subrange(
                    1,
                    pre.recent_seq().len() as int,
                ));
            }
        }
        let id = self.nextid;
        self.nextid = self.nextid + 1;
        self.recent.push(CacheEntry { id, ts, raw, parsed });
        proof {
            let post = *self;
            let kept = if pre.recent_seq().len() < pre.cap() {
                pre.recent_seq()
            } else {
                pre.recent_seq().subrange(1, pre.recent_seq().len() as int)
            };
            let m = post.recent_seq().len();
            assert(post.recent_seq().subrange(0, m - 1) =~= kept);
            assert(entry_matches(post.recent_seq()[m - 1], pre.next_id(), ts, rawv));
            assert(accepted_post(pre, post, ts, rawv));
            // The invariant survives: the new entry is newest and freshest.
            assert forall|a: int, b: int| 0 <= a < b < m implies (#[trigger] post.recent_seq()[a]).ts@
                <= (#[trigger] post.recent_seq()[b]).ts@ by {
                if b < m - 1 {
                    assert(post.recent_seq()[a] == kept[a] && post.recent_seq()[b] == kept[b]);
                } else {
                    assert(post.recent_seq()[a] == kept[a]);
                    if pre.recent_seq().len() > 0 {
                        assert(pre.recent_seq().last().ts@ <= ts@);
                    }
                }
            }
            assert forall|a: int, b: int| 0 <= a < b < m implies (#[trigger] post.recent_seq()[a]).id
                < (#[trigger] post.recent_seq()[b]).id by {
                if b < m - 1 {
                    assert(post.recent_seq()[a] == kept[a] && post.recent_seq()[b] == kept[b]);
                } else {
                    assert(post.recent_seq()[a] == kept[a]);
                }
            }
            assert(post.wf());
        }
        Ok(())
    }
}

/// How an accepted insert of `raw` at `ts` changes the cache: the
/// recency buffer drops its oldest entry at capacity and gains the new
/// one under a fresh identity, and — exactly when `raw` parses as a
/// position whose timestamp is no older than the stored one — the
/// source's latest-position slot is created or overwritten in place.
pub open spec fn accepted_post(pre: Log, post: Log, ts: Timestamp, raw: Seq<char>) -> bool {
    let kept = if pre.recent_seq().len() < pre.cap() {
        pre.recent_seq()
    } else {
        pre.recent_seq().subrange(1, pre.recent_seq().len() as int)
    };
    let m = post.recent_seq().len();
    &&& post.cap() == pre.cap()
    &&& post.next_id() == pre.next_id() + 1
    &&& m == kept.len() + 1
    &&& post.recent_seq().subrange(0, m - 1) == kept
    &&& entry_matches(post.recent_seq()[m - 1], pre.next_id(), ts, raw)
    &&& match aprs_parse_spec(raw) {
        Option::Some(f) => {
            let fi = find_key(pre.lastpos_seq(), f.0);
            if fi >= pre.lastpos_seq().len() {
                &&& post.lastpos_seq().len() == pre.lastpos_seq().len() + 1
                &&& post.lastpos_seq().subrange(0, pre.lastpos_seq().len() as int)
                    == pre.lastpos_seq()
                &&& slot_matches(post.lastpos_seq().last(), f, ts)
            } else if ts@ >= pre.lastpos_seq()[fi].1@ {
                &&& post.lastpos_seq().len() == pre.lastpos_seq().len()
                &&& forall|j: int|
                    0 <= j < pre.lastpos_seq().len() && j != fi ==> #[trigger] post.lastpos_seq()[j]
                        == pre.lastpos_seq()[j]
                &&& slot_matches(post.lastpos_seq()[fi], f, ts)
            } else {
                post.lastpos_seq() == pre.lastpos_seq()
            }
        },
        Option::None => post.lastpos_seq() == pre.lastpos_seq(),
    }
}

} // verus!

verus! {

/// Whether two cache entries read the same: same identity, time, raw
/// text, and parse outcome.
pub open spec fn entry_like(a: CacheEntry, b: CacheEntry) -> bool {
    &&& a.id == b.id
    &&& a.ts == b.ts
    &&& a.raw@ == b.raw@
    &&& match (a.parsed, b.parsed) {
        (Result::Ok(pa), Result::Ok(pb)) => ({
            &&& pa matches Packet::Position(x)
            &&& pb matches Packet::Position(y)
            &&& reports_like(x, y)
        }),
        (Result::Err(ea), Result::Err(eb)) => ({
            &&& ea matches Error::AprsParse { what: wa, why: ya }
            &&& eb matches Error::AprsParse { what: wb, why: yb } && wa@ == wb@ && ya@ == yb@
        }),
        _ => false,
    }
}

/// Whether two position reports read the same.
pub open spec fn reports_like(x: PositionReport, y: PositionReport) -> bool {
    &&& x.src_callsign@ == y.src_callsign@
    &&& x.pos == y.pos
    &&& match (x.comment, y.comment) {
        (Option::Some(a), Option::Some(b)) => a@ == b@,
        (Option::None, Option::None) => true,
        _ => false,
    }
}

/// Whether two latest-position slots read the same.
pub open spec fn slots_like(
    a: (String, Timestamp, PositionReport),
    b: (String, Timestamp, PositionReport),
) -> bool {
    a.0@ == b.0@ && a.1 == b.1 && reports_like(a.2, b.2)
}

/// Whether two caches read the same everywhere.
pub open spec fn models_equal(a: Log, b: Log) -> bool {
    &&& a.cap() == b.cap()
    &&& a.next_id() == b.next_id()
    &&& a.recent_seq().len() == b.recent_seq().len()
    &&& forall|i: int|
        0 <= i < a.recent_seq().len() ==> entry_like(
            #[trigger] a.recent_seq()[i],
            b.recent_seq()[i],
        )
    &&& a.lastpos_seq().len() == b.lastpos_seq().len()
    &&& forall|i: int|
        0 <= i < a.lastpos_seq().len() ==> slots_like(
            #[trigger] a.lastpos_seq()[i],
            b.lastpos_seq()[i],
        )
}

/// One insert step between two cache values: rejection leaves the cache
/// untouched, acceptance changes it as [`accepted_post`] says.
pub open spec fn step_rel(pre: Log, ts: Timestamp, raw: Seq<char>, post: Log) -> bool {
    if pre.recent_seq().len() > 0 && ts@ < pre.recent_seq().last().ts@ {
        post == pre
    } else {
        accepted_post(pre, post, ts, raw)
    }
}

/// Replaying a record sequence, in order, step by step.
pub open spec fn replay_rel(pre: Log, recs: Seq<(Timestamp, Seq<char>)>, post: Log) -> bool
    decreases recs.len(),
{
    if recs.len() == 0 {
        post == pre
    } else {
        exists|mid: Log|
            #[trigger] step_rel(pre, recs[0].0, recs[0].1, mid) && replay_rel(
                mid,
                recs.subrange(1, recs.len() as int),
                post,
            )
    }
}

/// Extending a replay by one record on the right.
pub proof fn lemma_replay_snoc(
    pre: Log,
    recs: Seq<(Timestamp, Seq<char>)>,
    x: (Timestamp, Seq<char>),
    mid: Log,
    post: Log,
)
    requires
        replay_rel(pre, recs, mid),
        step_rel(mid, x.0, x.1, post),
    ensures
        replay_rel(pre, recs.push(x), post),
    decreases recs.len(),
{
    let px = recs.push(x);
    if recs.len() == 0 {
        assert(mid == pre);
        assert(px[0] == x);
        assert(px.subrange(1, px.len() as int) =~= Seq::<(Timestamp, Seq<char>)>::empty());
        assert(step_rel(pre, px[0].0, px[0].1, post) && replay_rel(
            post,
            px.subrange(1, px.len() as int),
            post,
        ));
    } else {
        let m1 = choose|m: Log|
            #[trigger] step_rel(pre, recs[0].0, recs[0].1, m) && replay_rel(
                m,
                recs.subrange(1, recs.len() as int),
                mid,
            );
        lemma_replay_snoc(m1, recs.subrange(1, recs.len() as int), x, mid, post);
        assert(px.subrange(1, px.len() as int) =~= recs.subrange(1, recs.len() as int).push(x));
        assert(px[0] == recs[0]);
        assert(step_rel(pre, px[0].0, px[0].1, m1) && replay_rel(
            m1,
            px.subrange(1, px.len() as int),
            post,
        ));
    }
}

/// Searching the slots for a key depends only on how the slots read.
proof fn lemma_find_key_like(
    s1: Seq<(String, Timestamp, PositionReport)>,
    s2: Seq<(String, Timestamp, PositionReport)>,
    k: Seq<char>,
)
    requires
        s1.len() == s2.len(),
        forall|i: int| 0 <= i < s1.len() ==> slots_like(#[trigger] s1[i], s2[i]),
    ensures
        find_key(s1, k) == find_key(s2, k),
    decreases s1.len(),
{
    if s1.len() > 0 {
        assert(slots_like(s1[0], s2[0]));
        if s1[0].0@ != k {
            let t1 = s1.subrange(1, s1.len() as int);
            let t2 = s2.subrange(1, s2.len() as int);
            assert(forall|i: int| 0 <= i < t1.len() ==> slots_like(#[trigger] t1[i], t2[i]));
            lemma_find_key_like(t1, t2, k);
        }
    }
}

/// One step of the cache is deterministic in what can be read: caches
/// that read the same and accept the same record still read the same.
#[verifier::rlimit(100)]
pub proof fn lemma_step_deterministic(
    pre1: Log,
    post1: Log,
    pre2: Log,
    post2: Log,
    ts: Timestamp,
    raw: Seq<char>,
)
    requires
        pre1.cap() >= 1,
        models_equal(pre1, pre2),
        step_rel(pre1, ts, raw, post1),
        step_rel(pre2, ts, raw, post2),
    ensures
        models_equal(post1, post2),
{
    if pre1.recent_seq().len() > 0 && ts@ < pre1.recent_seq().last().ts@ {
        assert(entry_like(
            pre1.recent_seq()[pre1.recent_seq().len() - 1],
            pre2.recent_seq()[pre2.recent_seq().len() - 1],
        ));
        assert(post1 == pre1 && post2 == pre2);
    } else {
        if pre1.recent_seq().len() > 0 {
            assert(entry_like(
                pre1.recent_seq()[pre1.recent_seq().len() - 1],
                pre2.recent_seq()[pre2.recent_seq().len() - 1],
            ));
        }
        assert(accepted_post(pre1, post1, ts, raw));
        assert(accepted_post(pre2, post2, ts, raw));
        let kept1 = if pre1.recent_seq().len() < pre1.cap() {
            pre1.recent_seq()
        } else {
            pre1.recent_seq().subrange(1, pre1.recent_seq().len() as int)
        };
        let kept2 = if pre2.recent_seq().len() < pre2.cap() {
            pre2.recent_seq()
        } else {
            pre2.recent_seq().subrange(1, pre2.recent_seq().len() as int)
        };
        assert(kept1.len() == kept2.len());
        let m = post1.recent_seq().len();
        assert(post2.recent_seq().len() == m);
        assert(post1.recent_seq().subrange(0, m - 1) == kept1);
        assert(post2.recent_seq().subrange(0, m - 1) == kept2);
        assert forall|i: int| 0 <= i < m implies entry_like(
            #[trigger] post1.recent_seq()[i],
            post2.recent_seq()[i],
        ) by {
            if i < m - 1 {
                assert(post1.recent_seq().subrange(0, m - 1)[i] == post1.recent_seq()[i]);
                assert(post2.recent_seq().subrange(0, m - 1)[i] == post2.recent_seq()[i]);
                assert(post1.recent_seq()[i] == kept1[i]);
                assert(post2.recent_seq()[i] == kept2[i]);
                if pre1.recent_seq().len() < pre1.cap() {
                    assert(entry_like(pre1.recent_seq()[i], pre2.recent_seq()[i]));
                } else {
                    assert(kept1[i] == pre1.recent_seq()[i + 1]);
                    assert(kept2[i] == pre2.recent_seq()[i + 1]);
                    assert(entry_like(pre1.recent_seq()[i + 1], pre2.recent_seq()[i + 1]));
                }
            } else {
                assert(entry_matches(post1.recent_seq()[m - 1], pre1.next_id(), ts, raw));
                assert(entry_matches(post2.recent_seq()[m - 1], pre2.next_id(), ts, raw));
            }
        }
        match aprs_parse_spec(raw) {
            Option::Some(f) => {
                lemma_find_key_like(pre1.lastpos_seq(), pre2.lastpos_seq(), f.0);
                lemma_find_key_at(pre1.lastpos_seq(), f.0);
                let fi = find_key(pre1.lastpos_seq(), f.0);
                if fi >= pre1.lastpos_seq().len() {
                    assert forall|i: int| 0 <= i < post1.lastpos_seq().len() implies slots_like(
                        #[trigger] post1.lastpos_seq()[i],
                        post2.lastpos_seq()[i],
                    ) by {
                        if i < pre1.lastpos_seq().len() {
                            assert(post1.lastpos_seq().subrange(
                                0,
                                pre1.lastpos_seq().len() as int,
                            )[i] == post1.lastpos_seq()[i]);
                            assert(post2.lastpos_seq().subrange(
                                0,
                                pre2.lastpos_seq().len() as int,
                            )[i] == post2.lastpos_seq()[i]);
                            assert(post1.lastpos_seq()[i] == pre1.lastpos_seq()[i]);
                            assert(post2.lastpos_seq()[i] == pre2.lastpos_seq()[i]);
                            assert(slots_like(pre1.lastpos_seq()[i], pre2.lastpos_seq()[i]));
                        } else {
                            assert(slot_matches(post1.lastpos_seq().last(), f, ts));
                            assert(slot_matches(post2.lastpos_seq().last(), f, ts));
                        }
                    }
                } else {
                    assert(slots_like(pre1.lastpos_seq()[fi], pre2.lastpos_seq()[fi]));
                    if ts@ >= pre1.lastpos_seq()[fi].1@ {
                        assert forall|i: int| 0 <= i < post1.lastpos_seq().len() implies
                            slots_like(
                            #[trigger] post1.lastpos_seq()[i],
                            post2.lastpos_seq()[i],
                        ) by {
                            if i != fi {
                                assert(post1.lastpos_seq()[i] == pre1.lastpos_seq()[i]);
                                assert(post2.lastpos_seq()[i] == pre2.lastpos_seq()[i]);
                                assert(slots_like(pre1.lastpos_seq()[i], pre2.lastpos_seq()[i]));
                            }
                        }
                    } else {
                        assert(forall|i: int|
                            0 <= i < post1.lastpos_seq().len() ==> slots_like(
                                #[trigger] post1.lastpos_seq()[i],
                                post2.lastpos_seq()[i],
                            ));
                    }
                }
            },
            Option::None => {
                assert(forall|i: int|
                    0 <= i < post1.lastpos_seq().len() ==> slots_like(
                        #[trigger] post1.lastpos_seq()[i],
                        post2.lastpos_seq()[i],
                    ));
            },
        }
    }
}

/// Replaying the same records into caches that read the same leaves
/// caches that read the same: replay is deterministic, so two fresh
/// caches fed one event log end with identical latest positions and
/// identical recency buffers.
pub proof fn lemma_replay_deterministic(
    pre1: Log,
    post1: Log,
    pre2: Log,
    post2: Log,
    recs: Seq<(Timestamp, Seq<char>)>,
)
    requires
        pre1.cap() >= 1,
        models_equal(pre1, pre2),
        replay_rel(pre1, recs, post1),
        replay_rel(pre2, recs, post2),
    ensures
        models_equal(post1, post2),
    decreases recs.len(),
{
    if recs.len() == 0 {
        assert(post1 == pre1 && post2 == pre2);
    } else {
        let m1 = choose|m: Log|
            #[trigger] step_rel(pre1, recs[0].0, recs[0].1, m) && replay_rel(
                m,
                recs.subrange(1, recs.len() as int),
                post1,
            );
        let m2 = choose|m: Log|
            #[trigger] step_rel(pre2, recs[0].0, recs[0].1, m) && replay_rel(
                m,
                recs.subrange(1, recs.len() as int),
                post2,
            );
        lemma_step_deterministic(pre1, m1, pre2, m2, recs[0].0, recs[0].1);
        assert(m1.cap() == pre1.cap());
        lemma_replay_deterministic(m1, post1, m2, post2, recs.subrange(1, recs.len() as int));
    }
}

/// An accepted insert never loses a source and never moves a source's
/// latest position backward in time; when the insert is a position for
/// an already known source and is no older, that source's slot now
/// holds it.
#[verifier::rlimit(100)]
pub proof fn lemma_latest_position_monotone(pre: Log, post: Log, ts: Timestamp, raw: Seq<char>)
    requires
        accepted_post(pre, post, ts, raw),
    ensures
        post.lastpos_seq().len() >= pre.lastpos_seq().len(),
        forall|j: int|
            0 <= j < pre.lastpos_seq().len() ==> (#[trigger] post.lastpos_seq()[j]).0@
                == pre.lastpos_seq()[j].0@ && post.lastpos_seq()[j].1@ >= pre.lastpos_seq()[j].1@,
        aprs_parse_spec(raw) matches Some(f) ==> ({
            let fi = find_key(pre.lastpos_seq(), f.0);
            if fi < pre.lastpos_seq().len() {
                post.lastpos_seq()[fi].0@ == f.0 && post.lastpos_seq()[fi].1@ >= ts@
            } else {
                post.lastpos_seq().last().0@ == f.0 && post.lastpos_seq().last().1@ == ts@
            }
        }),
{
    match aprs_parse_spec(raw) {
        Option::Some(f) => {
            lemma_find_key_at(pre.lastpos_seq(), f.0);
            let fi = find_key(pre.lastpos_seq(), f.0);
            let n = pre.lastpos_seq().len() as int;
            if fi >= n {
                assert forall|j: int| 0 <= j < n implies (#[trigger] post.lastpos_seq()[j]).0@
                    == pre.lastpos_seq()[j].0@ && post.lastpos_seq()[j].1@
                    >= pre.lastpos_seq()[j].1@ by {
                    assert(post.lastpos_seq().subrange(0, n)[j] == post.lastpos_seq()[j]);
                }
                assert(slot_matches(post.lastpos_seq().last(), f, ts));
            } else if ts@ >= pre.lastpos_seq()[fi].1@ {
                assert(slot_matches(post.lastpos_seq()[fi], f, ts));
                assert forall|j: int| 0 <= j < n implies (#[trigger] post.lastpos_seq()[j]).0@
                    == pre.lastpos_seq()[j].0@ && post.lastpos_seq()[j].1@
                    >= pre.lastpos_seq()[j].1@ by {
                    if j == fi {
                        assert(pre.lastpos_seq()[fi].0@ == f.0);
                    }
                }
            } else {
            }
        },
        Option::None => {
        },
    }
}

/// The slot `find_key` points at, when in range, holds the key.
proof fn lemma_find_key_at(s: Seq<(String, Timestamp, PositionReport)>, k: Seq<char>)
    ensures
        find_key(s, k) < s.len() ==> s[find_key(s, k)].0@ == k,
        0 <= find_key(s, k),
    decreases s.len(),
{
    if s.len() > 0 && s[0].0@ != k {
        lemma_find_key_at(s.subrange(1, s.len() as int), k);
    }
}

} // verus!

verus! {

/// The recency buffer never exceeds its capacity and always holds the
/// most recently accepted packets: an accepted insert appends the new
/// entry, evicting exactly the oldest one once the buffer is full.
pub proof fn lemma_recency_bound(pre: Log, post: Log, ts: Timestamp, raw: Seq<char>)
    requires
        pre.wf(),
        accepted_post(pre, post, ts, raw),
    ensures
        post.recent_seq().len() <= pre.cap(),
        entry_matches(post.recent_seq().last(), pre.next_id(), ts, raw),
        pre.recent_seq().len() < pre.cap() ==> post.recent_seq().subrange(
            0,
            post.recent_seq().len() - 1,
        ) == pre.recent_seq(),
        pre.recent_seq().len() >= pre.cap() ==> post.recent_seq().subrange(
            0,
            post.recent_seq().len() - 1,
        ) == pre.recent_seq().subrange(1, pre.recent_seq().len() as int),
{
}

} // verus!

verus! {

/// Across a whole replay, no source is ever lost and no source's latest
/// position moves backward in time: with each source holding one slot
/// whose timestamp only grows, the slot always reflects the accepted
/// position with the greatest timestamp for that source.
pub proof fn lemma_replay_latest_monotone(
    pre: Log,
    recs: Seq<(Timestamp, Seq<char>)>,
    post: Log,
)
    requires
        replay_rel(pre, recs, post),
    ensures
        post.lastpos_seq().len() >= pre.lastpos_seq().len(),
        forall|j: int|
            0 <= j < pre.lastpos_seq().len() ==> (#[trigger] post.lastpos_seq()[j]).0@
                == pre.lastpos_seq()[j].0@ && post.lastpos_seq()[j].1@ >= pre.lastpos_seq()[j].1@,
    decreases recs.len(),
{
    if recs.len() == 0 {
        assert(post == pre);
    } else {
        let m1 = choose|m: Log|
            #[trigger] step_rel(pre, recs[0].0, recs[0].1, m) && replay_rel(
                m,
                recs.subrange(1, recs.len() as int),
                post,
            );
        if !(pre.recent_seq().len() > 0 && recs[0].0@ < pre.recent_seq().last().ts@) {
            lemma_latest_position_monotone(pre, m1, recs[0].0, recs[0].1);
        }
        lemma_replay_latest_monotone(m1, recs.subrange(1, recs.len() as int), post);
    }
}

} // verus!

verus! {

/// Slots never run ahead of the newest retained packet, and exist only
/// once a packet has been accepted.
pub open spec fn slots_current(l: Log) -> bool {
    if l.recent_seq().len() == 0 {
        l.lastpos_seq().len() == 0
    } else {
        forall|j: int|
            0 <= j < l.lastpos_seq().len() ==> (#[trigger] l.lastpos_seq()[j]).1@
                <= l.recent_seq().last().ts@
    }
}

/// The last record of the sequence that parses as a position for source
/// `c`, with its timestamp.
pub open spec fn last_pos_for(recs: Seq<(Timestamp, Seq<char>)>, c: Seq<char>) -> Option<
    (Timestamp, AprsFields),
>
    decreases recs.len(),
{
    if recs.len() == 0 {
        None
    } else {
        let tail = last_pos_for(recs.subrange(1, recs.len() as int), c);
        if tail is Some {
            tail
        } else {
            match aprs_parse_spec(recs[0].1) {
                Option::Some(f) => if f.0 == c {
                    Some((recs[0].0, f))
                } else {
                    None
                },
                Option::None => None,
            }
        }
    }
}

/// Everything before the found slot has another key, and the search
/// never runs past the end.
proof fn lemma_find_key_first(s: Seq<(String, Timestamp, PositionReport)>, k: Seq<char>)
    ensures
        0 <= find_key(s, k) <= s.len(),
        forall|j: int| 0 <= j < find_key(s, k) ==> (#[trigger] s[j]).0@ != k,
    decreases s.len(),
{
    if s.len() > 0 && s[0].0@ != k {
        lemma_find_key_first(s.subrange(1, s.len() as int), k);
        assert forall|j: int| 0 <= j < find_key(s, k) implies (#[trigger] s[j]).0@ != k by {
            if j > 0 {
                assert(s.subrange(1, s.len() as int)[j - 1] == s[j]);
            }
        }
    }
}

/// Scanning keys in order agrees with [`find_key`].
proof fn lemma_find_key_eq_keys(s: Seq<(String, Timestamp, PositionReport)>, k: Seq<char>, i: int)
    requires
        0 <= i <= s.len(),
        forall|j: int| 0 <= j < i ==> (#[trigger] s[j]).0@ != k,
        i == s.len() || s[i].0@ == k,
    ensures
        find_key(s, k) == i,
    decreases i,
{
    if i > 0 {
        let s1 = s.subrange(1, s.len() as int);
        assert(forall|j: int| 0 <= j < i - 1 ==> (#[trigger] s1[j]).0@ != k);
        assert(i - 1 == s1.len() || s1[i - 1].0@ == k);
        lemma_find_key_eq_keys(s1, k, i - 1);
    }
}

/// What one accepted insert does to the slot search for an arbitrary
/// source `c`, written over the pre-state's search result.
#[verifier::rlimit(100)]
proof fn lemma_step_slot_effect(pre: Log, post: Log, ts: Timestamp, raw: Seq<char>, c: Seq<char>)
    requires
        accepted_post(pre, post, ts, raw),
        slots_current(pre),
        pre.recent_seq().len() > 0 ==> ts@ >= pre.recent_seq().last().ts@,
    ensures
        slots_current(post),
        post.recent_seq().last().ts@ == ts@,
        match aprs_parse_spec(raw) {
            Option::Some(f) => if f.0 == c {
                ({
                    let fi = find_key(post.lastpos_seq(), c);
                    0 <= fi < post.lastpos_seq().len() && slot_matches(
                        post.lastpos_seq()[fi],
                        f,
                        ts,
                    )
                })
            } else {
                untouched_slot(pre, post, c)
            },
            Option::None => untouched_slot(pre, post, c),
        },
{
    let n = pre.lastpos_seq().len() as int;
    if pre.recent_seq().len() == 0 {
        assert(n == 0);
    }
    match aprs_parse_spec(raw) {
        Option::Some(f) => {
            lemma_find_key_at(pre.lastpos_seq(), f.0);
            lemma_find_key_first(pre.lastpos_seq(), f.0);
            lemma_find_key_first(pre.lastpos_seq(), c);
            lemma_find_key_at(pre.lastpos_seq(), c);
            let fj = find_key(pre.lastpos_seq(), f.0);
            if fj >= n {
                // A new slot is appended for this source.
                assert(fj == n);
                assert(forall|j: int|
                    0 <= j < n ==> #[trigger] post.lastpos_seq().subrange(0, n)[j]
                        == post.lastpos_seq()[j]);
                assert(forall|j: int|
                    0 <= j < n ==> #[trigger] post.lastpos_seq()[j] == pre.lastpos_seq()[j]);
                assert(slot_matches(post.lastpos_seq()[n], f, ts));
                if f.0 == c {
                    lemma_find_key_eq_keys(post.lastpos_seq(), c, n);
                } else {
                    lemma_find_key_stable_here(pre, post, c);
                }
            } else {
                // The stored slot is no newer than the newest packet,
                // which this accepted insert is not older than.
                assert(pre.lastpos_seq()[fj].1@ <= ts@);
                assert(forall|j: int|
                    0 <= j < n && j != fj ==> #[trigger] post.lastpos_seq()[j]
                        == pre.lastpos_seq()[j]);
                assert(slot_matches(post.lastpos_seq()[fj], f, ts));
                assert(forall|j: int|
                    0 <= j < n ==> (#[trigger] post.lastpos_seq()[j]).0@
                        == pre.lastpos_seq()[j].0@);
                if f.0 == c {
                    assert(forall|j: int| 0 <= j < fj ==> (#[trigger] post.lastpos_seq()[j]).0@ != c);
                    lemma_find_key_eq_keys(post.lastpos_seq(), c, fj);
                } else {
                    lemma_find_key_stable_here(pre, post, c);
                    let fi = find_key(pre.lastpos_seq(), c);
                    if fi < n {
                        assert(pre.lastpos_seq()[fi].0@ == c);
                        assert(fi != fj);
                    }
                }
            }
            // The new state stays current.
            assert forall|j: int| 0 <= j < post.lastpos_seq().len() implies (
            #[trigger] post.lastpos_seq()[j]).1@ <= post.recent_seq().last().ts@ by {
                if fj >= n {
                    if j < n {
                        assert(post.lastpos_seq()[j] == pre.lastpos_seq()[j]);
                    }
                } else {
                    if j != fj {
                        assert(post.lastpos_seq()[j] == pre.lastpos_seq()[j]);
                    }
                }
            }
        },
        Option::None => {
            assert(post.lastpos_seq() == pre.lastpos_seq());
            lemma_find_key_first(pre.lastpos_seq(), c);
            lemma_find_key_at(pre.lastpos_seq(), c);
            assert(untouched_slot(pre, post, c));
            assert forall|j: int| 0 <= j < post.lastpos_seq().len() implies (
            #[trigger] post.lastpos_seq()[j]).1@ <= post.recent_seq().last().ts@ by {
                assert(post.lastpos_seq()[j] == pre.lastpos_seq()[j]);
            }
        },
    }
}

/// The search for `c` lands where it did before, on the same slot
/// value; a source unknown before stays unknown.
pub open spec fn untouched_slot(pre: Log, post: Log, c: Seq<char>) -> bool {
    let fi = find_key(pre.lastpos_seq(), c);
    if fi < pre.lastpos_seq().len() {
        &&& find_key(post.lastpos_seq(), c) == fi
        &&& fi < post.lastpos_seq().len()
        &&& post.lastpos_seq()[fi] == pre.lastpos_seq()[fi]
    } else {
        find_key(post.lastpos_seq(), c) >= post.lastpos_seq().len()
    }
}

/// Keys at old indexes unchanged and no new slot for `c`: the search
/// for `c` is stable.
proof fn lemma_find_key_stable_here(pre: Log, post: Log, c: Seq<char>)
    requires
        pre.lastpos_seq().len() <= post.lastpos_seq().len(),
        forall|j: int|
            0 <= j < pre.lastpos_seq().len() ==> (#[trigger] post.lastpos_seq()[j]).0@
                == pre.lastpos_seq()[j].0@,
        forall|j: int|
            pre.lastpos_seq().len() <= j < post.lastpos_seq().len() ==> (
            #[trigger] post.lastpos_seq()[j]).0@ != c,
        forall|j: int|
            0 <= j < pre.lastpos_seq().len() && pre.lastpos_seq()[j].0@ == c ==> (
            #[trigger] post.lastpos_seq()[j]) == pre.lastpos_seq()[j],
    ensures
        untouched_slot(pre, post, c),
{
    lemma_find_key_first(pre.lastpos_seq(), c);
    lemma_find_key_at(pre.lastpos_seq(), c);
    let fi = find_key(pre.lastpos_seq(), c);
    if fi < pre.lastpos_seq().len() {
        assert(forall|j: int| 0 <= j < fi ==> (#[trigger] post.lastpos_seq()[j]).0@ != c);
        assert(post.lastpos_seq()[fi].0@ == c);
        lemma_find_key_eq_keys(post.lastpos_seq(), c, fi);
    } else {
        assert(forall|j: int|
            0 <= j < post.lastpos_seq().len() ==> (#[trigger] post.lastpos_seq()[j]).0@ != c);
        lemma_find_key_eq_keys(post.lastpos_seq(), c, post.lastpos_seq().len() as int);
    }
}

/// For a globally chronological record sequence — which is all the
/// cache accepts — each source that sent at least one parsed position
/// ends with its slot holding exactly the last one sent: the position
/// with the greatest timestamp for that source.
pub proof fn lemma_replay_latest_positions(
    pre: Log,
    recs: Seq<(Timestamp, Seq<char>)>,
    post: Log,
    c: Seq<char>,
)
    requires
        replay_rel(pre, recs, post),
        slots_current(pre),
        forall|i: int, j: int|
            0 <= i < j < recs.len() ==> (#[trigger] recs[i]).0@ <= (#[trigger] recs[j]).0@,
        pre.recent_seq().len() > 0 ==> forall|i: int|
            0 <= i < recs.len() ==> (#[trigger] recs[i]).0@ >= pre.recent_seq().last().ts@,
    ensures
        match last_pos_for(recs, c) {
            Option::Some((ts, f)) => ({
                let fi = find_key(post.lastpos_seq(), c);
                0 <= fi < post.lastpos_seq().len() && slot_matches(post.lastpos_seq()[fi], f, ts)
            }),
            Option::None => untouched_slot(pre, post, c),
        },
    decreases recs.len(),
{
    lemma_find_key_first(pre.lastpos_seq(), c);
    lemma_find_key_at(pre.lastpos_seq(), c);
    if recs.len() == 0 {
        assert(post == pre);
    } else {
        let rest = recs.subrange(1, recs.len() as int);
        let m1 = choose|m: Log|
            #[trigger] step_rel(pre, recs[0].0, recs[0].1, m) && replay_rel(m, rest, post);
        assert(!(pre.recent_seq().len() > 0 && recs[0].0@ < pre.recent_seq().last().ts@));
        assert(accepted_post(pre, m1, recs[0].0, recs[0].1));
        lemma_step_slot_effect(pre, m1, recs[0].0, recs[0].1, c);
        assert(forall|i: int, j: int|
            0 <= i < j < rest.len() ==> (#[trigger] rest[i]).0@ <= (#[trigger] rest[j]).0@);
        assert(m1.recent_seq().len() > 0);
        assert(forall|i: int|
            0 <= i < rest.len() ==> (#[trigger] rest[i]).0@ >= m1.recent_seq().last().ts@);
        lemma_replay_latest_positions(m1, rest, post, c);
        match last_pos_for(rest, c) {
            Option::Some(_) => {
            },
            Option::None => {
                // Nothing later touched this source; the step decides.
                match aprs_parse_spec(recs[0].1) {
                    Option::Some(f) => {
                        if f.0 == c {
                            let fi1 = find_key(m1.lastpos_seq(), c);
                            assert(slot_matches(m1.lastpos_seq()[fi1], f, recs[0].0));
                            assert(untouched_slot(m1, post, c));
                        } else {
                            lemma_untouched_compose(pre, m1, post, c);
                        }
                    },
                    Option::None => {
                        lemma_untouched_compose(pre, m1, post, c);
                    },
                }
            },
        }
    }
}

/// Two untouched stretches compose.
proof fn lemma_untouched_compose(pre: Log, mid: Log, post: Log, c: Seq<char>)
    requires
        untouched_slot(pre, mid, c),
        untouched_slot(mid, post, c),
    ensures
        untouched_slot(pre, post, c),
{
    lemma_find_key_first(pre.lastpos_seq(), c);
    lemma_find_key_at(pre.lastpos_seq(), c);
    lemma_find_key_first(mid.lastpos_seq(), c);
    lemma_find_key_at(mid.lastpos_seq(), c);
}

} // verus!

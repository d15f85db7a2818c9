//! The persisted event log: one line per record, an RFC 3339 timestamp,
//! a space, and a canonical JSON object `{"type":"aprs","data":"..."}`.
//! Appending is write-side; querying parses every line, keeps records
//! inside the requested span, and skips lines that do not parse.
use vstd::prelude::*;
use crate::err::{Error, Result};
use crate::time::{
    digit_char, find_char, is_digit, iso_parse, iso_utc_seq, scan_for_char, Timespan, Timestamp,
};

verus! {

/// A persisted record; APRS packet text is the only kind the core stores.
#[derive(Debug, PartialEq)]
pub enum Record {
    AprsPacket { data: String },
}

impl Clone for Record {
    /// A copy whose packet text reads the same.
    fn clone(&self) -> (r: Record)
        ensures
            r.data_view() == self.data_view(),
    {
        match self {
            Record::AprsPacket { data } => Record::AprsPacket { data: data.clone() },
        }
    }
}

impl Record {
    /// The packet text the record carries.
    pub open spec fn data_view(self) -> Seq<char> {
        match self {
            Record::AprsPacket { data } => data@,
        }
    }
}

/// The hexadecimal digit character for `v`, lowercase.
pub open spec fn hex_char(v: int) -> char {
    if v == 10 {
        'a'
    } else if v == 11 {
        'b'
    } else if v == 12 {
        'c'
    } else if v == 13 {
        'd'
    } else if v == 14 {
        'e'
    } else if v == 15 {
        'f'
    } else {
        digit_char(v)
    }
}

/// How one character is written inside a JSON string: quotes and
/// backslashes get a backslash, the five named controls their short
/// escapes, any other control a `\u00xx` escape, and everything else
/// stands as itself.
pub open spec fn esc_char(c: char) -> Seq<char> {
    if c == '"' {
        seq!['\\', '"']
    } else if c == '\\' {
        seq!['\\', '\\']
    } else if c == '\u{8}' {
        seq!['\\', 'b']
    } else if c == '\t' {
        seq!['\\', 't']
    } else if c == '\n' {
        seq!['\\', 'n']
    } else if c == '\u{c}' {
        seq!['\\', 'f']
    } else if c == '\r' {
        seq!['\\', 'r']
    } else if (c as int) < 32 {
        seq!['\\', 'u', '0', '0', hex_char(c as int / 16), hex_char(c as int % 16)]
    } else {
        seq![c]
    }
}

/// A text written inside a JSON string, character by character.
pub open spec fn json_escaped(s: Seq<char>) -> Seq<char>
    decreases s.len(),
{
    if s.len() == 0 {
        Seq::empty()
    } else {
        esc_char(s[0]) + json_escaped(s.subrange(1, s.len() as int))
    }
}

/// The opening of the canonical record object, up to the value quote.
pub open spec fn record_prefix() -> Seq<char> {
    seq![
        '{', '"', 't', 'y', 'p', 'e', '"', ':', '"', 'a', 'p', 'r', 's', '"', ',', '"', 'd',
        'a', 't', 'a', '"', ':', '"',
    ]
}

/// The canonical JSON object for a record carrying `data`.
pub open spec fn record_json(data: Seq<char>) -> Seq<char> {
    record_prefix() + json_escaped(data) + seq!['"', '}']
}

/// One full log line: the timestamp, one space, and the record object.
pub open spec fn line_seq(ts: int, data: Seq<char>) -> Seq<char> {
    iso_utc_seq(ts) + seq![' '] + record_json(data)
}

/// Escaping one more character extends the escaped text on the right.
proof fn lemma_json_escaped_snoc(s: Seq<char>, i: int)
    requires
        0 <= i < s.len(),
    ensures
        json_escaped(s.subrange(0, i + 1)) == json_escaped(s.subrange(0, i)) + esc_char(s[i]),
    decreases i,
{
    let a = s.subrange(0, i + 1);
    let b = s.subrange(0, i);
    if i == 0 {
        assert(a.subrange(1, a.len() as int) =~= Seq::<char>::empty());
        assert(json_escaped(b) =~= Seq::<char>::empty());
        assert(json_escaped(a) =~= esc_char(s[0]) + json_escaped(a.subrange(1, a.len() as int)));
        assert(json_escaped(a) =~= json_escaped(b) + esc_char(s[i]));
    } else {
        let s1 = s.subrange(1, s.len() as int);
        lemma_json_escaped_snoc(s1, i - 1);
        assert(a.subrange(1, a.len() as int) =~= s1.subrange(0, i));
        assert(b.subrange(1, b.len() as int) =~= s1.subrange(0, i - 1));
        assert(a[0] == s[0] && b[0] == s[0]);
        assert(json_escaped(a) == esc_char(s[0]) + json_escaped(s1.subrange(0, i)));
        assert(json_escaped(b) == esc_char(s[0]) + json_escaped(s1.subrange(0, i - 1)));
        assert(s1[i - 1] == s[i]);
        assert(json_escaped(s1.subrange(0, i)) == json_escaped(s1.subrange(0, i - 1)) + esc_char(
            s[i],
        ));
        assert(json_escaped(a) =~= json_escaped(b) + esc_char(s[i]));
    }
}

/// Writes one control character.
fn append_control(out: &mut String, v: u8)
    requires
        v < 32,
    ensures
        final(out)@ == old(out)@ + seq![v as char],
{
    match v {
        0 => {
            proof {
                reveal_strlit("\u{0}");
            }
            out.append("\u{0}");
        },
        1 => {
            proof {
                reveal_strlit("\u{1}");
            }
            out.append("\u{1}");
        },
        2 => {
            proof {
                reveal_strlit("\u{2}");
            }
            out.append("\u{2}");
        },
        3 => {
            proof {
                reveal_strlit("\u{3}");
            }
            out.append("\u{3}");
        },
        4 => {
            proof {
                reveal_strlit("\u{4}");
            }
            out.append("\u{4}");
        },
        5 => {
            proof {
                reveal_strlit("\u{5}");
            }
            out.append("\u{5}");
        },
        6 => {
            proof {
                reveal_strlit("\u{6}");
            }
            out.append("\u{6}");
        },
        7 => {
            proof {
                reveal_strlit("\u{7}");
            }
            out.append("\u{7}");
        },
        8 => {
            proof {
                reveal_strlit("\u{8}");
            }
            out.append("\u{8}");
        },
        9 => {
            proof {
                reveal_strlit("\u{9}");
            }
            out.append("\u{9}");
        },
        10 => {
            proof {
                reveal_strlit("\u{a}");
            }
            out.append("\u{a}");
        },
        11 => {
            proof {
                reveal_strlit("\u{b}");
            }
            out.append("\u{b}");
        },
        12 => {
            proof {
                reveal_strlit("\u{c}");
            }
            out.append("\u{c}");
        },
        13 => {
            proof {
                reveal_strlit("\u{d}");
            }
            out.append("\u{d}");
        },
        14 => {
            proof {
                reveal_strlit("\u{e}");
            }
            out.append("\u{e}");
        },
        15 => {
            proof {
                reveal_strlit("\u{f}");
            }
            out.append("\u{f}");
        },
        16 => {
            proof {
                reveal_strlit("\u{10}");
            }
            out.append("\u{10}");
        },
        17 => {
            proof {
                reveal_strlit("\u{11}");
            }
            out.append("\u{11}");
        },
        18 => {
            proof {
                reveal_strlit("\u{12}");
            }
            out.append("\u{12}");
        },
        19 => {
            proof {
                reveal_strlit("\u{13}");
            }
            out.append("\u{13}");
        },
        20 => {
            proof {
                reveal_strlit("\u{14}");
            }
            out.append("\u{14}");
        },
        21 => {
            proof {
                reveal_strlit("\u{15}");
            }
            out.append("\u{15}");
        },
        22 => {
            proof {
                reveal_strlit("\u{16}");
            }
            out.append("\u{16}");
        },
        23 => {
            proof {
                reveal_strlit("\u{17}");
            }
            out.append("\u{17}");
        },
        24 => {
            proof {
                reveal_strlit("\u{18}");
            }
            out.append("\u{18}");
        },
        25 => {
            proof {
                reveal_strlit("\u{19}");
            }
            out.append("\u{19}");
        },
        26 => {
            proof {
                reveal_strlit("\u{1a}");
            }
            out.append("\u{1a}");
        },
        27 => {
            proof {
                reveal_strlit("\u{1b}");
            }
            out.append("\u{1b}");
        },
        28 => {
            proof {
                reveal_strlit("\u{1c}");
            }
            out.append("\u{1c}");
        },
        29 => {
            proof {
                reveal_strlit("\u{1d}");
            }
            out.append("\u{1d}");
        },
        30 => {
            proof {
                reveal_strlit("\u{1e}");
            }
            out.append("\u{1e}");
        },
        31 => {
            proof {
                reveal_strlit("\u{1f}");
            }
            out.append("\u{1f}");
        },
        _ => {
            proof {
                assert(false);
            }
        },
    }
    proof {
        assert(out@ =~= old(out)@ + seq![v as char]);
    }
}

/// Writes `s` escaped for a JSON string.
fn json_escape_append(out: &mut String, s: &str)
    ensures
        final(out)@ == old(out)@ + json_escaped(s@),
{
    let n = s.unicode_len();
    let mut i: usize = 0;
    proof {
        assert(s@.subrange(0, 0) =~= Seq::<char>::empty());
        assert(out@ =~= old(out)@ + json_escaped(s@.subrange(0, 0)));
    }
    while i < n
        invariant
            i <= n == s@.len(),
            out@ == old(out)@ + json_escaped(s@.subrange(0, i as int)),
        decreases n - i,
    {
        let c = s.get_char(i);
        let u = c as u32;
        proof {
            lemma_json_escaped_snoc(s@, i as int);
            reveal_strlit("\\\"");
            reveal_strlit("\\\\");
            reveal_strlit("\\b");
            reveal_strlit("\\t");
            reveal_strlit("\\n");
            reveal_strlit("\\f");
            reveal_strlit("\\r");
            reveal_strlit("\\u00");
            reveal_strlit("1");
            reveal_strlit("a");
            reveal_strlit("b");
            reveal_strlit("c");
            reveal_strlit("d");
            reveal_strlit("e");
            reveal_strlit("f");
        }
        if c == '"' {
            out.append("\\\"");
        } else if c == '\\' {
            out.append("\\\\");
        } else if u == 8 {
            out.append("\\b");
        } else if u == 9 {
            out.append("\\t");
        } else if u == 10 {
            out.append("\\n");
        } else if u == 12 {
            out.append("\\f");
        } else if u == 13 {
            out.append("\\r");
        } else if u < 32 {
            out.append("\\u00");
            if u < 16 {
                crate::time::push_digit(out, 0);
            } else {
                out.append("1");
            }
            let lo = (u % 16) as u8;
            if lo < 10 {
                crate::time::push_digit(out, lo);
            } else if lo == 10 {
                out.append("a");
            } else if lo == 11 {
                out.append("b");
            } else if lo == 12 {
                out.append("c");
            } else if lo == 13 {
                out.append("d");
            } else if lo == 14 {
                out.append("e");
            } else {
                out.append("f");
            }
            proof {
                assert(u as int / 16 == if u < 16 { 0int } else { 1int }) by (nonlinear_arith)
                    requires
                        u < 32,
                ;
                assert(out@ =~= old(out)@ + json_escaped(s@.subrange(0, i + 1)));
            }
        } else {
            let piece = s.substring_char(i, i + 1);
            out.append(piece);
            proof {
                assert(piece@ =~= seq![s@[i as int]]);
            }
        }
        proof {
            assert(out@ =~= old(out)@ + json_escaped(s@.subrange(0, i + 1)));
        }
        i = i + 1;
    }
    proof {
        assert(s@.subrange(0, n as int) =~= s@);
    }
}

} // verus!

verus! {

/// Whether `c` is a hexadecimal digit.
pub open spec fn is_hex(c: char) -> bool {
    is_digit(c) || (97 <= c as int <= 102) || (65 <= c as int <= 70)
}

/// The value of a hexadecimal digit character.
pub open spec fn hexv(c: char) -> int {
    if is_digit(c) {
        crate::time::dval(c)
    } else if 97 <= c as int <= 102 {
        c as int - 87
    } else {
        c as int - 55
    }
}

/// Glues one decoded character onto the rest of a decoded string body.
pub open spec fn unesc_cons(c: char, rest: Option<(Seq<char>, int)>, used: int) -> Option<
    (Seq<char>, int),
> {
    match rest {
        Option::Some((s, k)) => Some((seq![c] + s, used + k)),
        Option::None => None,
    }
}

/// Reads a JSON string body up to and including its closing quote,
/// giving the decoded text and how many characters were consumed.
/// Raw control characters are rejected; `\u00xx` escapes are read for
/// control values only, which is all the writer ever emits.
pub open spec fn unesc(t: Seq<char>) -> Option<(Seq<char>, int)>
    decreases t.len(),
{
    if t.len() == 0 {
        None
    } else if t[0] == '"' {
        Some((Seq::empty(), 1))
    } else if t[0] == '\\' {
        if t.len() < 2 {
            None
        } else {
            let c = t[1];
            if c == '"' || c == '\\' || c == '/' {
                unesc_cons(c, unesc(t.subrange(2, t.len() as int)), 2)
            } else if c == 'b' {
                unesc_cons('\u{8}', unesc(t.subrange(2, t.len() as int)), 2)
            } else if c == 't' {
                unesc_cons('\t', unesc(t.subrange(2, t.len() as int)), 2)
            } else if c == 'n' {
                unesc_cons('\n', unesc(t.subrange(2, t.len() as int)), 2)
            } else if c == 'f' {
                unesc_cons('\u{c}', unesc(t.subrange(2, t.len() as int)), 2)
            } else if c == 'r' {
                unesc_cons('\r', unesc(t.subrange(2, t.len() as int)), 2)
            } else if c == 'u' {
                if t.len() < 6 {
                    None
                } else if t[2] == '0' && t[3] == '0' && is_hex(t[4]) && is_hex(t[5]) && hexv(t[4])
                    * 16 + hexv(t[5]) < 32 {
                    unesc_cons(
                        ((hexv(t[4]) * 16 + hexv(t[5])) as u8) as char,
                        unesc(t.subrange(6, t.len() as int)),
                        6,
                    )
                } else {
                    None
                }
            } else {
                None
            }
        }
    } else if (t[0] as int) < 32 {
        None
    } else {
        unesc_cons(t[0], unesc(t.subrange(1, t.len() as int)), 1)
    }
}

/// The packet text of a canonical record object, or `None` when the
/// text is not one.
pub open spec fn parse_record_spec(j: Seq<char>) -> Option<Seq<char>> {
    if j.len() < 25 || j.subrange(0, 23) != record_prefix() {
        None
    } else {
        match unesc(j.subrange(23, j.len() as int)) {
            Option::Some((content, k)) => if 23 + k < j.len() && j[23 + k] == '}' && 23 + k + 1
                == j.len() {
                Some(content)
            } else {
                None
            },
            Option::None => None,
        }
    }
}

/// The timestamp and raw record text of a log line, split at the first
/// space; `None` when there is no space or the timestamp does not parse.
pub open spec fn split_line_spec(line: Seq<char>) -> Option<(int, Seq<char>)> {
    let sp = find_char(line, ' ');
    if sp >= line.len() {
        None
    } else {
        match iso_parse(line.subrange(0, sp)) {
            Option::Some(v) => if v >= 0 {
                Some((v, line.subrange(sp + 1, line.len() as int)))
            } else {
                None
            },
            Option::None => None,
        }
    }
}

/// The timestamp and packet text of a full log line, or `None` when any
/// part of it does not parse.
pub open spec fn parse_line_spec(line: Seq<char>) -> Option<(int, Seq<char>)> {
    match split_line_spec(line) {
        Option::Some((v, rest)) => match parse_record_spec(rest) {
            Option::Some(d) => Some((v, d)),
            Option::None => None,
        },
        Option::None => None,
    }
}

/// Writes the log line for `rec` stamped `ts`.
pub fn format_line(ts: Timestamp, rec: &Record) -> (r: String)
    requires
        ts@ < crate::time::ISO_YEAR_LIMIT_MS,
    ensures
        r@ == line_seq(ts@, rec.data_view()),
{
    let mut out = ts.to_iso_string_utc();
    proof {
        reveal_strlit(" ");
        reveal_strlit("{\"type\":\"aprs\",\"data\":\"");
        reveal_strlit("\"}");
    }
    out.append(" ");
    out.append("{\"type\":\"aprs\",\"data\":\"");
    match rec {
        Record::AprsPacket { data } => {
            json_escape_append(&mut out, data.as_str());
        },
    }
    out.append("\"}");
    proof {
        assert(out@ =~= line_seq(ts@, rec.data_view()));
    }
    out
}

/// Splits one log line into its timestamp and raw record text.
pub fn split_line(line: &str) -> (r: Result<(Timestamp, String)>)
    ensures
        match split_line_spec(line@) {
            Option::Some((v, rest)) => r matches Ok(p) && p.0@ == v && p.1@ == rest,
            Option::None => r is Err,
        },
{
    let n = line.unicode_len();
    let sp = scan_for_char(line, 0, n, ' ');
    proof {
        assert(line@.subrange(0, n as int) =~= line@);
    }
    if sp >= n {
        return Err(Error::msg("expected timestamp and data separated by a space"));
    }
    let iso = line.substring_char(0, sp);
    let ts = match Timestamp::from_iso_string(iso) {
        Ok(t) => t,
        Err(_) => {
            return Err(Error::msg("expected timestamp and data separated by a space"));
        },
    };
    let rest = line.substring_char(sp + 1, n).to_owned();
    Ok((ts, rest))
}

/// Reads the canonical record object.
#[verifier::rlimit(100)]
pub fn decode_record(j: &str) -> (r: Result<Record>)
    ensures
        match parse_record_spec(j@) {
            Option::Some(d) => r matches Ok(rec) && rec.data_view() == d,
            Option::None => r is Err,
        },
{
    let n = j.unicode_len();
    if n < 25 {
        return Err(Error::msg("not a log record"));
    }
    let pfx_ok = j.get_char(0) == '{' && j.get_char(1) == '"' && j.get_char(2) == 't'
        && j.get_char(3) == 'y' && j.get_char(4) == 'p' && j.get_char(5) == 'e'
        && j.get_char(6) == '"' && j.get_char(7) == ':' && j.get_char(8) == '"'
        && j.get_char(9) == 'a' && j.get_char(10) == 'p' && j.get_char(11) == 'r'
        && j.get_char(12) == 's' && j.get_char(13) == '"' && j.get_char(14) == ','
        && j.get_char(15) == '"' && j.get_char(16) == 'd' && j.get_char(17) == 'a'
        && j.get_char(18) == 't' && j.get_char(19) == 'a' && j.get_char(20) == '"'
        && j.get_char(21) == ':' && j.get_char(22) == '"';
    if !pfx_ok {
        proof {
            assert(j@.subrange(0, 23) != record_prefix());
        }
        return Err(Error::msg("not a log record"));
    }
    proof {
        assert(j@.subrange(0, 23) =~= record_prefix());
    }
    let ghost full = j@.subrange(23, n as int);
    let mut acc = String::new();
    let mut jdx: usize = 23;
    proof {
        assert(full.subrange(0, full.len() as int) =~= full);
    }
    loop
        invariant
            23 <= jdx <= n == j@.len(),
            n >= 25,
            full == j@.subrange(23, n as int),
            j@.subrange(0, 23) == record_prefix(),
            match unesc(full.subrange(jdx - 23, full.len() as int)) {
                Option::Some((s2, k2)) => unesc(full) matches Some(p) && p.0 =~= acc@ + s2
                    && p.1 == jdx - 23 + k2,
                Option::None => unesc(full) is None,
            },
        decreases n - jdx,
    {
        let ghost rel = jdx - 23;
        let ghost rem = full.subrange(rel, full.len() as int);
        proof {
            assert(forall|x: int|
                0 <= x < rem.len() ==> #[trigger] rem[x] == j@[23 + rel + x]);
        }
        if jdx >= n {
            proof {
                assert(rem.len() == 0);
            }
            return Err(Error::msg("not a log record"));
        }
        let c = j.get_char(jdx);
        let u = c as u32;
        if c == '"' {
            // The closing quote: the object must end right after.
            proof {
                assert(rem[0] == '"');
                assert(unesc(rem) == Some((Seq::<char>::empty(), 1int)));
                assert(acc@ + Seq::<char>::empty() =~= acc@);
            }
            if n - jdx == 2 && j.get_char(jdx + 1) == '}' {
                proof {
                    let p = unesc(full).unwrap();
                    assert(p.0 =~= acc@ + Seq::<char>::empty());
                    assert(p.0 =~= acc@);
                    assert(p.1 == jdx - 23 + 1);
                    assert(j@[23 + p.1] == '}');
                    assert(23 + p.1 + 1 == j@.len());
                    assert(j@.subrange(23, j@.len() as int) == full);
                    assert(j@.subrange(0, 23) == record_prefix());
                    assert(parse_record_spec(j@) == Some(p.0));
                }
                return Ok(Record::AprsPacket { data: acc });
            } else {
                proof {
                    assert(parse_record_spec(j@) is None);
                }
                return Err(Error::msg("not a log record"));
            }
        } else if c == '\\' {
            if jdx + 1 >= n {
                proof {
                    assert(rem.len() < 2);
                }
                return Err(Error::msg("not a log record"));
            }
            let e = j.get_char(jdx + 1);
            proof {
                assert(rem[0] == '\\');
                assert(rem[1] == e);
                reveal_strlit("\"");
                reveal_strlit("\\");
                reveal_strlit("/");
                reveal_strlit("\u{8}");
                reveal_strlit("\t");
                reveal_strlit("\n");
                reveal_strlit("\u{c}");
                reveal_strlit("\r");
            }
            if e == '"' {
                acc.append("\"");
            } else if e == '\\' {
                acc.append("\\");
            } else if e == '/' {
                acc.append("/");
            } else if e == 'b' {
                acc.append("\u{8}");
            } else if e == 't' {
                acc.append("\t");
            } else if e == 'n' {
                acc.append("\n");
            } else if e == 'f' {
                acc.append("\u{c}");
            } else if e == 'r' {
                acc.append("\r");
            } else if e == 'u' {
                if n - jdx < 6 {
                    proof {
                        assert(rem.len() < 6);
                    }
                    return Err(Error::msg("not a log record"));
                }
                let z2 = j.get_char(jdx + 2);
                let z3 = j.get_char(jdx + 3);
                let h4 = j.get_char(jdx + 4);
                let h5 = j.get_char(jdx + 5);
                proof {
                    assert(rem[2] == z2 && rem[3] == z3 && rem[4] == h4 && rem[5] == h5);
                }
                let v4 = match hex_val(h4) {
                    Some(v) => v,
                    None => {
                        return Err(Error::msg("not a log record"));
                    },
                };
                let v5 = match hex_val(h5) {
                    Some(v) => v,
                    None => {
                        return Err(Error::msg("not a log record"));
                    },
                };
                if !(z2 == '0' && z3 == '0') || v4 * 16 + v5 >= 32 {
                    return Err(Error::msg("not a log record"));
                }
                append_control(&mut acc, v4 * 16 + v5);
                proof {
                    let nxt = full.subrange(rel + 6, full.len() as int);
                    assert(rem.subrange(6, rem.len() as int) =~= nxt);
                    assert(unesc(rem) == unesc_cons(
                        ((hexv(rem[4]) * 16 + hexv(rem[5])) as u8) as char,
                        unesc(nxt),
                        6,
                    ));
                }
                jdx = jdx + 6;
                continue ;
            } else {
                return Err(Error::msg("not a log record"));
            }
            proof {
                let nxt = full.subrange(rel + 2, full.len() as int);
                assert(rem.subrange(2, rem.len() as int) =~= nxt);
            }
            jdx = jdx + 2;
        } else if u < 32 {
            proof {
                assert((rem[0] as int) < 32 && rem[0] != '"' && rem[0] != '\\');
            }
            return Err(Error::msg("not a log record"));
        } else {
            let piece = j.substring_char(jdx, jdx + 1);
            acc.append(piece);
            proof {
                assert(piece@ =~= seq![rem[0]]);
                let nxt = full.subrange(rel + 1, full.len() as int);
                assert(rem.subrange(1, rem.len() as int) =~= nxt);
            }
            jdx = jdx + 1;
        }
    }
}

/// Reads one hexadecimal digit character.
fn hex_val(c: char) -> (r: Option<u8>)
    ensures
        match r {
            Option::Some(v) => is_hex(c) && v as int == hexv(c) && v < 16,
            Option::None => !is_hex(c),
        },
{
    let u = c as u32;
    if 48 <= u && u <= 57 {
        Some((u - 48) as u8)
    } else if 97 <= u && u <= 102 {
        Some((u - 87) as u8)
    } else if 65 <= u && u <= 70 {
        Some((u - 55) as u8)
    } else {
        None
    }
}

/// Reads one full log line.
pub fn parse_line(line: &str) -> (r: Result<(Timestamp, Record)>)
    ensures
        match parse_line_spec(line@) {
            Option::Some((v, d)) => r matches Ok(p) && p.0@ == v && p.1.data_view() == d,
            Option::None => r is Err,
        },
{
    let (ts, rest) = match split_line(line) {
        Ok(p) => p,
        Err(e) => {
            return Err(e);
        },
    };
    match decode_record(rest.as_str()) {
        Ok(rec) => Ok((ts, rec)),
        Err(e) => Err(e),
    }
}

} // verus!

verus! {

/// What one line contributes to a query over `[start, end)`.
pub open spec fn line_contrib(x: Seq<char>, start: int, end: int) -> Seq<(int, Seq<char>)> {
    match parse_line_spec(x) {
        Option::Some((ts, d)) => if start <= ts < end {
            seq![(ts, d)]
        } else {
            Seq::empty()
        },
        Option::None => Seq::empty(),
    }
}

/// The records a query over `[start, end)` returns from the given lines,
/// in file order: every line that parses and falls inside the span; a
/// line that does not parse is skipped.
pub open spec fn query_spec(lines: Seq<Seq<char>>, start: int, end: int) -> Seq<(int, Seq<char>)>
    decreases lines.len(),
{
    if lines.len() == 0 {
        Seq::empty()
    } else {
        line_contrib(lines[0], start, end) + query_spec(
            lines.subrange(1, lines.len() as int),
            start,
            end,
        )
    }
}

/// A query of one more line appends that line's contribution.
proof fn lemma_query_snoc(lines: Seq<Seq<char>>, x: Seq<char>, start: int, end: int)
    ensures
        query_spec(lines.push(x), start, end) == query_spec(lines, start, end) + line_contrib(
            x,
            start,
            end,
        ),
    decreases lines.len(),
{
    let px = lines.push(x);
    if lines.len() == 0 {
        assert(px[0] == x);
        assert(px.subrange(1, px.len() as int) =~= Seq::<Seq<char>>::empty());
        assert(query_spec(px.subrange(1, px.len() as int), start, end) == Seq::<(
            int,
            Seq<char>,
        )>::empty());
        assert(query_spec(px, start, end) == line_contrib(x, start, end) + Seq::<(
            int,
            Seq<char>,
        )>::empty());
        assert(line_contrib(x, start, end) + Seq::<(int, Seq<char>)>::empty() =~= line_contrib(
            x,
            start,
            end,
        ));
        assert(query_spec(px, start, end) =~= line_contrib(x, start, end));
        assert(query_spec(lines, start, end) + line_contrib(x, start, end) =~= line_contrib(
            x,
            start,
            end,
        ));
    } else {
        assert(px[0] == lines[0]);
        assert(px.subrange(1, px.len() as int) =~= lines.subrange(1, lines.len() as int).push(x));
        lemma_query_snoc(lines.subrange(1, lines.len() as int), x, start, end);
        assert(query_spec(px, start, end) =~= query_spec(lines, start, end) + line_contrib(
            x,
            start,
            end,
        ));
    }
}

/// Answers a span query over the given log lines: the records of every
/// line that parses and whose timestamp falls in the span, in file
/// order; lines that do not parse are skipped.
pub fn query_lines(lines: &Vec<String>, span: Timespan) -> (r: Vec<(Timestamp, Record)>)
    ensures
        ({
            let q = query_spec(
                lines@.map_values(|l: String| l@),
                span.start_ms(),
                span.end_ms(),
            );
            &&& r@.len() == q.len()
            &&& forall|i: int|
                0 <= i < q.len() ==> (#[trigger] r@[i]).0@ == q[i].0 && r@[i].1.data_view()
                    == q[i].1
        }),
{
    let ghost allv = lines@.map_values(|l: String| l@);
    let mut out: Vec<(Timestamp, Record)> = Vec::new();
    let mut i: usize = 0;
    proof {
        assert(lines@.subrange(0, 0).map_values(|l: String| l@)
            =~= Seq::<Seq<char>>::empty());
    }
    while i < lines.len()
        invariant
            i <= lines@.len(),
            ({
                let q = query_spec(
                    lines@.subrange(0, i as int).map_values(|l: String| l@),
                    span.start_ms(),
                    span.end_ms(),
                );
                &&& out@.len() == q.len()
                &&& forall|k: int|
                    0 <= k < q.len() ==> (#[trigger] out@[k]).0@ == q[k].0 && out@[k].1.data_view()
                        == q[k].1
            }),
        decreases lines@.len() - i,
    {
        let ghost pre = lines@.subrange(0, i as int).map_values(|l: String| l@);
        match parse_line(lines[i].as_str()) {
            Ok(p) => {
                let (ts, rec) = p;
                if span.includes(ts) {
                    out.push((ts, rec));
                }
            },
            Err(_) => {},
        }
        proof {
            lemma_query_snoc(pre, lines@[i as int]@, span.start_ms(), span.end_ms());
            assert(lines@.subrange(0, i + 1).map_values(|l: String| l@) =~= pre.push(
                lines@[i as int]@,
            ));
        }
        i = i + 1;
    }
    proof {
        assert(lines@.subrange(0, lines@.len() as int) =~= lines@);
    }
    out
}

/// Every character's scalar value is non-negative.
proof fn lemma_char_nonneg(c: char)
    ensures
        (c as int) >= 0,
{
}

/// A hexadecimal digit character names its own value.
proof fn lemma_hex_recover(v: int)
    requires
        0 <= v < 16,
    ensures
        is_hex(hex_char(v)),
        hexv(hex_char(v)) == v,
{
}

/// A timestamp never prints a space, so the line splits at the first
/// space after it.
#[verifier::rlimit(100)]
proof fn lemma_iso_no_space(ms: int)
    requires
        0 <= ms < crate::time::ISO_YEAR_LIMIT_MS,
    ensures
        forall|i: int| 0 <= i < iso_utc_seq(ms).len() ==> (#[trigger] iso_utc_seq(ms)[i]) != ' ',
{
    let s = iso_utc_seq(ms);
    let frac = ms % 1000;
    vstd::arithmetic::div_mod::lemma_mod_bound(ms, 1000);
    let tail = s.subrange(19, s.len() as int);
    let fp = crate::time::frac_part(frac);
    assert(tail =~= fp + seq!['Z']);
    assert(forall|d: int| crate::time::digit_char(d) != ' ');
    assert(s[0] != ' ' && s[1] != ' ' && s[2] != ' ' && s[3] != ' ');
    assert(s[4] == '-' && s[7] == '-' && s[10] == 'T' && s[13] == ':' && s[16] == ':');
    assert(s[5] != ' ' && s[6] != ' ' && s[8] != ' ' && s[9] != ' ');
    assert(s[11] != ' ' && s[12] != ' ' && s[14] != ' ' && s[15] != ' ');
    assert(s[17] != ' ' && s[18] != ' ');
    assert(forall|k: int| 0 <= k < fp.len() ==> #[trigger] fp[k] != ' ');
    assert forall|i: int| 0 <= i < s.len() implies (#[trigger] s[i]) != ' ' by {
        if i >= 19 {
            assert(s[i] == tail[i - 19]);
            if i - 19 < fp.len() {
                assert(tail[i - 19] == fp[i - 19]);
            } else {
                assert(tail[i - 19] == 'Z');
            }
        }
    }
}

/// Decoding an escaped text followed by its closing quote returns the
/// text and stops right after the quote, whatever follows.
proof fn lemma_unesc_escaped(data: Seq<char>, rest: Seq<char>)
    ensures
        unesc(json_escaped(data) + seq!['"'] + rest) == Some(
            (data, json_escaped(data).len() + 1 as int),
        ),
    decreases data.len(),
{
    let t = json_escaped(data) + seq!['"'] + rest;
    if data.len() == 0 {
        assert(t[0] == '"');
        assert(unesc(t) == Some((Seq::<char>::empty(), 1int)));
        assert(data =~= Seq::<char>::empty());
    } else {
        let c = data[0];
        let e = esc_char(c);
        let d1 = data.subrange(1, data.len() as int);
        assert(json_escaped(data) == e + json_escaped(d1));
        let t1 = json_escaped(d1) + seq!['"'] + rest;
        assert(t =~= e + t1);
        lemma_unesc_escaped(d1, rest);
        let l1 = json_escaped(d1).len() as int;
        if c == '"' || c == '\\' {
            assert(t[0] == '\\' && t[1] == c);
            assert(t.subrange(2, t.len() as int) =~= t1);
            assert(seq![c] + d1 =~= data);
            assert(unesc(t) == Some((data, json_escaped(data).len() + 1 as int)));
        } else if c == '\u{8}' || c == '\t' || c == '\n' || c == '\u{c}' || c == '\r' {
            assert(t[0] == '\\');
            assert(t.subrange(2, t.len() as int) =~= t1);
            assert(seq![c] + d1 =~= data);
            assert(unesc(t) == Some((data, json_escaped(data).len() + 1 as int)));
        } else if (c as int) < 32 {
            let v = c as int;
            lemma_char_nonneg(c);
            let hi = v / 16;
            let lo = v % 16;
            vstd::arithmetic::div_mod::lemma_fundamental_div_mod(v, 16);
            vstd::arithmetic::div_mod::lemma_mod_bound(v, 16);
            assert(0 <= hi < 2) by (nonlinear_arith)
                requires
                    hi == v / 16 && 0 <= v < 32,
            ;
            lemma_hex_recover(hi);
            lemma_hex_recover(lo);
            assert(t[0] == '\\' && t[1] == 'u' && t[2] == '0' && t[3] == '0');
            assert(t[4] == hex_char(hi) && t[5] == hex_char(lo));
            assert(hexv(t[4]) * 16 + hexv(t[5]) == v);
            assert((((c as int) as u8) as char) == c);
            assert(((v as u8) as char) == c);
            assert(hexv(t[4]) * 16 + hexv(t[5]) < 32);
            assert(t.subrange(6, t.len() as int) =~= t1);
            assert(seq![c] + d1 =~= data);
            assert(unesc(t) == Some((data, json_escaped(data).len() + 1 as int)));
        } else {
            assert(t[0] == c);
            assert(t.subrange(1, t.len() as int) =~= t1);
            assert(seq![c] + d1 =~= data);
            assert(unesc(t) == Some((data, json_escaped(data).len() + 1 as int)));
        }
    }
}

/// Encoding a record and decoding the object back returns the same
/// packet text.
pub proof fn lemma_record_round_trip(data: Seq<char>)
    ensures
        parse_record_spec(record_json(data)) == Some(data),
{
    let j = record_json(data);
    assert(j.subrange(0, 23) =~= record_prefix());
    let body = j.subrange(23, j.len() as int);
    lemma_unesc_escaped(data, seq!['}']);
    assert(body =~= json_escaped(data) + seq!['"'] + seq!['}']);
    let l = json_escaped(data).len() as int;
    assert(unesc(body) == Some((data, l + 1)));
    assert(j.len() == 23 + l + 2);
    assert(j[23 + l + 1] == '}');
    assert(parse_record_spec(j) == Some(data));
}

/// Writing a line and parsing it back returns the same timestamp and
/// packet text.
pub proof fn lemma_line_round_trip(ts: int, data: Seq<char>)
    requires
        0 <= ts < crate::time::ISO_YEAR_LIMIT_MS,
    ensures
        parse_line_spec(line_seq(ts, data)) == Some((ts, data)),
{
    let line = line_seq(ts, data);
    let iso = iso_utc_seq(ts);
    lemma_iso_no_space(ts);
    assert(line[iso.len() as int] == ' ');
    assert(forall|j: int| 0 <= j < iso.len() ==> #[trigger] line[j] == iso[j]);
    crate::time::lemma_find_char_eq(line, ' ', iso.len() as int);
    assert(line.subrange(0, iso.len() as int) =~= iso);
    crate::time::lemma_iso_round_trip(ts);
    assert(line.subrange(iso.len() as int + 1, line.len() as int) =~= record_json(data));
    lemma_record_round_trip(data);
}

/// Appending records inside a span and querying that span returns
/// exactly those records, in order, with the same packet text.
pub proof fn lemma_log_round_trip(recs: Seq<(int, Seq<char>)>, start: int, end: int)
    requires
        forall|i: int|
            0 <= i < recs.len() ==> start <= (#[trigger] recs[i]).0 < end && 0 <= recs[i].0
                < crate::time::ISO_YEAR_LIMIT_MS,
    ensures
        query_spec(
            recs.map_values(|rc: (int, Seq<char>)| line_seq(rc.0, rc.1)),
            start,
            end,
        ) == recs,
    decreases recs.len(),
{
    let lines = recs.map_values(|rc: (int, Seq<char>)| line_seq(rc.0, rc.1));
    if recs.len() == 0 {
        assert(query_spec(lines, start, end) =~= recs);
    } else {
        assert(lines[0] == line_seq(recs[0].0, recs[0].1));
        lemma_line_round_trip(recs[0].0, recs[0].1);
        assert(line_contrib(lines[0], start, end) == seq![(recs[0].0, recs[0].1)]);
        let r1 = recs.subrange(1, recs.len() as int);
        assert(lines.subrange(1, lines.len() as int) =~= r1.map_values(
            |rc: (int, Seq<char>)| line_seq(rc.0, rc.1),
        ));
        lemma_log_round_trip(r1, start, end);
        assert((recs[0].0, recs[0].1) == recs[0]);
        assert(query_spec(lines, start, end) =~= recs);
    }
}

} // verus!

verus! {

/// A query never returns more records than it was given lines.
pub proof fn lemma_query_len(lines: Seq<Seq<char>>, start: int, end: int)
    ensures
        query_spec(lines, start, end).len() <= lines.len(),
    decreases lines.len(),
{
    if lines.len() > 0 {
        lemma_query_len(lines.subrange(1, lines.len() as int), start, end);
    }
}

} // verus!

//! The worker actor's pure core: it owns the packet cache, applies
//! ingestion, replays the event log on startup, and composes the parts
//! of a view that need no geometry: the heading strings, the ordered
//! station references, and the rendered log messages.
use vstd::prelude::*;
use crate::aprs::{accepted_post, replay_rel, step_rel, CacheEntry, Log};
use crate::err::{Error, Result};
use crate::jsonlog::{lemma_query_len, query_spec, Record};
use crate::time::{dec_str, Timespan, Timestamp};

verus! {

/// A view request.  The feature filter is an extension point; the core
/// passes it through untouched.
#[derive(Debug)]
pub struct Query {
    pub feature: Option<String>,
}

/// A reference to a station shown in a view.
#[derive(Debug)]
pub enum FeatureRef {
    Beacon { name: String, slug: String, location: String, lastseen: Timestamp },
}

/// One rendered log line of a view.
#[derive(Debug)]
pub enum LogMessage {
    Info { id: u64, time: Timestamp, text: String },
    Error { id: u64, time: Timestamp, text: String },
}

/// One station prepared for rendering: its naming and the four ranking
/// flags, which the surrounding layer computes from the reference model
/// and its station table.
#[derive(Debug)]
pub struct PoiRef {
    pub name: String,
    pub slug: String,
    pub location: String,
    pub lastseen: Timestamp,
    pub favorite: bool,
    pub known: bool,
    pub near: bool,
    pub recent: bool,
}

/// The geometry-free part of a view: headings, ordered station
/// references, and log messages.
#[derive(Debug)]
pub struct RenderedView {
    pub name: String,
    pub description: String,
    pub time: Timestamp,
    pub refs: Vec<FeatureRef>,
    pub log: Vec<LogMessage>,
}

/// The rank of a station: favorites first, then known stations, then
/// those near the reference area, then those seen recently.
pub open spec fn poi_rank(p: PoiRef) -> int {
    (if p.favorite {
        0int
    } else {
        8int
    }) + (if p.known {
        0int
    } else {
        4int
    }) + (if p.near {
        0int
    } else {
        2int
    }) + (if p.recent {
        0int
    } else {
        1int
    })
}

/// The sort order of stations.
pub open spec fn poi_le(a: PoiRef, b: PoiRef) -> bool {
    poi_rank(a) <= poi_rank(b)
}

/// The lowercase form of an uppercase ASCII letter; other characters
/// stand as themselves.
pub open spec fn lower_char(c: char) -> char {
    if c == 'A' {
        'a'
    } else if c == 'B' {
        'b'
    } else if c == 'C' {
        'c'
    } else if c == 'D' {
        'd'
    } else if c == 'E' {
        'e'
    } else if c == 'F' {
        'f'
    } else if c == 'G' {
        'g'
    } else if c == 'H' {
        'h'
    } else if c == 'I' {
        'i'
    } else if c == 'J' {
        'j'
    } else if c == 'K' {
        'k'
    } else if c == 'L' {
        'l'
    } else if c == 'M' {
        'm'
    } else if c == 'N' {
        'n'
    } else if c == 'O' {
        'o'
    } else if c == 'P' {
        'p'
    } else if c == 'Q' {
        'q'
    } else if c == 'R' {
        'r'
    } else if c == 'S' {
        's'
    } else if c == 'T' {
        't'
    } else if c == 'U' {
        'u'
    } else if c == 'V' {
        'v'
    } else if c == 'W' {
        'w'
    } else if c == 'X' {
        'x'
    } else if c == 'Y' {
        'y'
    } else if c == 'Z' {
        'z'
    } else {
        c
    }
}

/// A text with its uppercase ASCII letters lowered.
pub open spec fn lower_seq(s: Seq<char>) -> Seq<char> {
    s.map_values(|c: char| lower_char(c))
}

/// Compares two stations by rank.
fn poi_le_exec(a: &PoiRef, b: &PoiRef) -> (r: bool)
    ensures
        r == poi_le(*a, *b),
{
    let ra: u8 = (if a.favorite { 0 } else { 8 }) + (if a.known { 0 } else { 4 }) + (if a.near {
        0
    } else {
        2
    }) + (if a.recent { 0 } else { 1 });
    let rb: u8 = (if b.favorite { 0 } else { 8 }) + (if b.known { 0 } else { 4 }) + (if b.near {
        0
    } else {
        2
    }) + (if b.recent { 0 } else { 1 });
    ra <= rb
}

/// Sorts stations by rank, favorites and known stations first.  The
/// order of equally ranked stations is not promised.
pub fn sort_pois(v: Vec<PoiRef>) -> (r: Vec<PoiRef>)
    ensures
        r@.to_multiset() == v@.to_multiset(),
        r@.len() == v@.len(),
        forall|i: int, j: int| 0 <= i < j < r@.len() ==> poi_le(#[trigger] r@[i], #[trigger] r@[j]),
{
    broadcast use vstd::seq_lib::group_to_multiset_ensures;
    broadcast use vstd::multiset::group_multiset_axioms;

    let mut src = v;
    let mut out: Vec<PoiRef> = Vec::new();
    proof {
        assert(out@.to_multiset().add(src@.to_multiset()) =~= v@.to_multiset());
    }
    while src.len() > 0
        invariant
            out@.to_multiset().add(src@.to_multiset()) == v@.to_multiset(),
            out@.len() + src@.len() == v@.len(),
            forall|i: int, j: int|
                0 <= i < j < out@.len() ==> poi_le(#[trigger] out@[i], #[trigger] out@[j]),
            forall|i: int, j: int|
                0 <= i < out@.len() && 0 <= j < src@.len() ==> poi_le(
                    #[trigger] out@[i],
                    #[trigger] src@[j],
                ),
        decreases src@.len(),
    {
        // Pick the least-ranked remaining station.
        let mut m: usize = 0;
        let mut k: usize = 1;
        while k < src.len()
            invariant
                src@.len() >= 1,
                m < src@.len(),
                1 <= k,
                forall|j: int| 0 <= j < k && j < src@.len() ==> poi_le(
                    src@[m as int],
                    #[trigger] src@[j],
                ),
            decreases src@.len() - k,
        {
            if !poi_le_exec(&src[m], &src[k]) {
                m = k;
            }
            k = k + 1;
        }
        proof {
            assert(forall|j: int| 0 <= j < src@.len() ==> poi_le(
                src@[m as int],
                #[trigger] src@[j],
            ));
        }
        let ghost pre_src = src@;
        let ghost pre_out = out@;
        let x = src.remove(m);
        out.push(x);
        proof {
            vstd::seq_lib::to_multiset_remove(pre_src, m as int);
            vstd::seq_lib::to_multiset_build(pre_out, pre_src[m as int]);
            assert(pre_src.remove(m as int).to_multiset() == pre_src.to_multiset().remove(
                pre_src[m as int],
            ));
            assert(pre_out.push(pre_src[m as int]).to_multiset() == pre_out.to_multiset().insert(
                pre_src[m as int],
            ));
            vstd::seq_lib::to_multiset_contains(pre_src, pre_src[m as int]);
            assert(pre_src.contains(pre_src[m as int]));
            assert(pre_src.to_multiset().count(pre_src[m as int]) > 0);
            assert(out@.to_multiset() == pre_out.to_multiset().insert(pre_src[m as int]));
            assert(src@.to_multiset() == pre_src.to_multiset().remove(pre_src[m as int]));
            assert forall|y: PoiRef|
                out@.to_multiset().add(src@.to_multiset()).count(y) == v@.to_multiset().count(
                    y,
                ) by {
                broadcast use vstd::multiset::group_multiset_axioms;
            }
            assert(out@.to_multiset().add(src@.to_multiset()) =~= v@.to_multiset());
            assert(forall|j: int|
                0 <= j < src@.len() ==> #[trigger] src@[j] == pre_src[if j < m as int {
                    j
                } else {
                    j + 1
                }]);
        }
    }
    out
}

/// Whether a station was seen within the three-hour recency window.
pub fn seen_recently(ts: Timestamp, now: Timestamp) -> (r: bool)
    ensures
        r == (vstd::math::abs(ts@ - now@) < 10800000),
{
    ts.millis_between(now) < 10800000
}

/// Writes one character with uppercase ASCII lowered.
fn push_lower_char(out: &mut String, s: &str, i: usize)
    requires
        i < s@.len(),
        i < usize::MAX,
    ensures
        final(out)@ == old(out)@ + seq![lower_char(s@[i as int])],
{
    let c = s.get_char(i);
    match c {
        'A' => {
            proof {
                reveal_strlit("a");
            }
            out.append("a");
        },
        'B' => {
            proof {
                reveal_strlit("b");
            }
            out.append("b");
        },
        'C' => {
            proof {
                reveal_strlit("c");
            }
            out.append("c");
        },
        'D' => {
            proof {
                reveal_strlit("d");
            }
            out.append("d");
        },
        'E' => {
            proof {
                reveal_strlit("e");
            }
            out.append("e");
        },
        'F' => {
            proof {
                reveal_strlit("f");
            }
            out.append("f");
        },
        'G' => {
            proof {
                reveal_strlit("g");
            }
            out.append("g");
        },
        'H' => {
            proof {
                reveal_strlit("h");
            }
            out.append("h");
        },
        'I' => {
            proof {
                reveal_strlit("i");
            }
            out.append("i");
        },
        'J' => {
            proof {
                reveal_strlit("j");
            }
            out.append("j");
        },
        'K' => {
            proof {
                reveal_strlit("k");
            }
            out.append("k");
        },
        'L' => {
            proof {
                reveal_strlit("l");
            }
            out.append("l");
        },
        'M' => {
            proof {
                reveal_strlit("m");
            }
            out.append("m");
        },
        'N' => {
            proof {
                reveal_strlit("n");
            }
            out.append("n");
        },
        'O' => {
            proof {
                reveal_strlit("o");
            }
            out.append("o");
        },
        'P' => {
            proof {
                reveal_strlit("p");
            }
            out.append("p");
        },
        'Q' => {
            proof {
                reveal_strlit("q");
            }
            out.append("q");
        },
        'R' => {
            proof {
                reveal_strlit("r");
            }
            out.append("r");
        },
        'S' => {
            proof {
                reveal_strlit("s");
            }
            out.append("s");
        },
        'T' => {
            proof {
                reveal_strlit("t");
            }
            out.append("t");
        },
        'U' => {
            proof {
                reveal_strlit("u");
            }
            out.append("u");
        },
        'V' => {
            proof {
                reveal_strlit("v");
            }
            out.append("v");
        },
        'W' => {
            proof {
                reveal_strlit("w");
            }
            out.append("w");
        },
        'X' => {
            proof {
                reveal_strlit("x");
            }
            out.append("x");
        },
        'Y' => {
            proof {
                reveal_strlit("y");
            }
            out.append("y");
        },
        'Z' => {
            proof {
                reveal_strlit("z");
            }
            out.append("z");
        },
        _ => {
            let piece = s.substring_char(i, i + 1);
            out.append(piece);
            proof {
                assert(piece@ =~= seq![s@[i as int]]);
            }
        },
    }
    proof {
        assert(out@ =~= old(out)@ + seq![lower_char(s@[i as int])]);
    }
}

/// The slug of a station: `aprs/` and its callsign lowered.
pub fn make_slug(callsign: &str) -> (r: String)
    ensures
        r@ == "aprs/"@ + lower_seq(callsign@),
{
    let mut out = String::new();
    proof {
        reveal_strlit("aprs/");
    }
    out.append("aprs/");
    let n = callsign.unicode_len();
    let mut i: usize = 0;
    proof {
        assert(out@ =~= "aprs/"@ + lower_seq(callsign@.subrange(0, 0)));
    }
    while i < n
        invariant
            i <= n == callsign@.len(),
            out@ == "aprs/"@ + lower_seq(callsign@.subrange(0, i as int)),
        decreases n - i,
    {
        push_lower_char(&mut out, callsign, i);
        proof {
            assert(out@ =~= "aprs/"@ + lower_seq(callsign@.subrange(0, i + 1)));
        }
        i = i + 1;
    }
    proof {
        assert(callsign@.subrange(0, n as int) =~= callsign@);
    }
    out
}

/// What the rendered log line of one cache entry holds: the raw packet
/// text for a parsed packet, and the text with the parse failure
/// appended for a failed one.
pub open spec fn message_matches(m: LogMessage, e: CacheEntry) -> bool {
    match e.parsed {
        Result::Ok(_) => m matches LogMessage::Info { id, time, text } && id == e.id && time
            == e.ts && text@ == e.raw@,
        Result::Err(err) => m matches LogMessage::Error { id, time, text } && id == e.id && time
            == e.ts && text@ == e.raw@ + ": "@ + error_text(err),
    }
}

/// The rendered text of a cache failure: the parse error with its
/// offending packet and reason.
pub open spec fn error_text(e: Error) -> Seq<char> {
    match e {
        Error::AprsParse { what, why } => "can't parse APRS packet "@ + what@ + ": "@ + why@,
        _ => "error"@,
    }
}

/// Renders one cache entry as a log message.
fn render_message(e: &CacheEntry) -> (r: LogMessage)
    ensures
        message_matches(r, *e),
{
    match &e.parsed {
        Ok(_) => LogMessage::Info { id: e.id, time: e.ts, text: e.raw.clone() },
        Err(err) => {
            let mut text = e.raw.clone();
            proof {
                reveal_strlit(": ");
                reveal_strlit("can't parse APRS packet ");
                reveal_strlit("error");
            }
            text.append(": ");
            match err {
                Error::AprsParse { what, why } => {
                    text.append("can't parse APRS packet ");
                    text.append(what.as_str());
                    text.append(": ");
                    text.append(why.as_str());
                },
                _ => {
                    text.append("error");
                },
            }
            proof {
                assert(text@ =~= e.raw@ + ": "@ + error_text(e.parsed->Err_0));
            }
            LogMessage::Error { id: e.id, time: e.ts, text }
        },
    }
}

/// Whether each reference renders the station at its place: same name,
/// slug, location label and last-seen time.
pub open spec fn refs_match(refs: Seq<FeatureRef>, q: Seq<PoiRef>) -> bool {
    &&& refs.len() == q.len()
    &&& forall|i: int|
        0 <= i < refs.len() ==> ({
            &&& (#[trigger] refs[i]) matches FeatureRef::Beacon { name, slug, location, lastseen }
                && name@ == q[i].name@ && slug@ == q[i].slug@ && location@ == q[i].location@
                && lastseen == q[i].lastseen
        })
}

/// Whether the stations stand in rank order.
pub open spec fn ranked(q: Seq<PoiRef>) -> bool {
    forall|i: int, j: int| 0 <= i < j < q.len() ==> poi_le(#[trigger] q[i], #[trigger] q[j])
}

/// The single actor that owns the packet cache.  It alone mutates the
/// cache: live packets and replayed records go through the same path.
#[derive(Debug)]
pub struct Worker {
    recent_packets: Log,
}

impl Worker {
    pub closed spec fn cache(self) -> Log {
        self.recent_packets
    }

    pub open spec fn wf(self) -> bool {
        self.cache().wf()
    }

    /// A worker with the default cache capacity.
    pub fn new() -> (r: Worker)
        ensures
            r.wf(),
            r.cache().recent_seq().len() == 0,
            r.cache().lastpos_seq().len() == 0,
            r.cache().cap() == 32,
            r.cache().next_id() == 1,
    {
        Worker { recent_packets: Log::new() }
    }

    /// A worker whose cache keeps up to `cap` recent packets.
    pub fn with_capacity(cap: usize) -> (r: Worker)
        requires
            cap >= 1,
        ensures
            r.wf(),
            r.cache().recent_seq().len() == 0,
            r.cache().lastpos_seq().len() == 0,
            r.cache().cap() == cap,
            r.cache().next_id() == 1,
    {
        Worker { recent_packets: Log::with_capacity(cap) }
    }

    /// The cache, read-only.
    pub fn packets(&self) -> (r: &Log)
        ensures
            *r == self.cache(),
    {
        &self.recent_packets
    }

    /// Applies one received packet to the cache; the caller stamps the
    /// receive time.  An out-of-order timestamp is rejected and leaves
    /// the cache unchanged.
    pub fn post_aprs(&mut self, ts: Timestamp, data: String) -> (r: Result<()>)
        requires
            old(self).wf(),
            old(self).cache().next_id() < u64::MAX,
        ensures
            final(self).wf(),
            (old(self).cache().recent_seq().len() > 0 && ts@
                < old(self).cache().recent_seq().last().ts@) ==> (r matches Err(e)
                && e is AprsOrder) && final(self).cache() == old(self).cache(),
            !(old(self).cache().recent_seq().len() > 0 && ts@
                < old(self).cache().recent_seq().last().ts@) ==> r is Ok && accepted_post(
                old(self).cache(),
                final(self).cache(),
                ts,
                data@,
            ),
    {
        self.recent_packets.push(ts, data)
    }

    /// Replays event-log lines through the same ingestion path as live
    /// traffic: every stored record inside the span, in file order.
    /// Returns how many records were replayed; rejected or malformed
    /// ones are skipped, as during live ingestion.
    pub fn preload(&mut self, lines: &Vec<String>, span: Timespan) -> (r: usize)
        requires
            old(self).wf(),
            old(self).cache().next_id() + lines@.len() <= u64::MAX,
        ensures
            final(self).wf(),
            final(self).cache().cap() == old(self).cache().cap(),
            ({
                let q = query_spec(
                    lines@.map_values(|l: String| l@),
                    span.start_ms(),
                    span.end_ms(),
                );
                exists|recs: Seq<(Timestamp, Seq<char>)>|
                    #[trigger] replay_rel(old(self).cache(), recs, final(self).cache())
                        && recs.len() == q.len() && (forall|i: int|
                        0 <= i < recs.len() ==> (#[trigger] recs[i]).0@ == q[i].0 && recs[i].1
                            == q[i].1)
            }),
    {
        let records = crate::jsonlog::query_lines(lines, span);
        let ghost q = query_spec(
            lines@.map_values(|l: String| l@),
            span.start_ms(),
            span.end_ms(),
        );
        let ghost recsv = records@.map_values(|p: (Timestamp, Record)| (p.0, p.1.data_view()));
        proof {
            assert(recsv.len() == q.len());
            assert(forall|i: int|
                0 <= i < recsv.len() ==> (#[trigger] recsv[i]).0@ == q[i].0 && recsv[i].1
                    == q[i].1);
            assert(q.len() <= lines@.len()) by {
                lemma_query_len(
                    lines@.map_values(|l: String| l@),
                    span.start_ms(),
                    span.end_ms(),
                );
            }
        }
        let ghost start_cache = old(self).cache();
        let mut i: usize = 0;
        proof {
            assert(recsv.subrange(0, 0) =~= Seq::<(Timestamp, Seq<char>)>::empty());
        }
        while i < records.len()
            invariant
                i <= records@.len(),
                records@.len() == recsv.len() == q.len() <= lines@.len(),
                self.wf(),
                self.cache().cap() == start_cache.cap(),
                self.cache().next_id() <= start_cache.next_id() + i,
                start_cache.next_id() + lines@.len() <= u64::MAX,
                recsv == records@.map_values(
                    |p: (Timestamp, Record)| (p.0, p.1.data_view()),
                ),
                replay_rel(start_cache, recsv.subrange(0, i as int), self.cache()),
            decreases records@.len() - i,
        {
            let ghost pre_cache = self.cache();
            let ghost processed = recsv.subrange(0, i as int);
            let (ts, rec) = &records[i];
            match rec {
                Record::AprsPacket { data } => {
                    let _ = self.post_aprs(*ts, data.clone());
                },
            }
            proof {
                assert(step_rel(pre_cache, recsv[i as int].0, recsv[i as int].1, self.cache()));
                crate::aprs::lemma_replay_snoc(
                    start_cache,
                    processed,
                    recsv[i as int],
                    pre_cache,
                    self.cache(),
                );
                assert(recsv.subrange(0, i + 1) =~= processed.push(recsv[i as int]));
            }
            i = i + 1;
        }
        proof {
            assert(recsv.subrange(0, recsv.len() as int) =~= recsv);
            assert(replay_rel(start_cache, recsv, self.cache()));
        }
        records.len()
    }

    /// How many stations have a latest position.
    pub fn station_count(&self) -> (r: usize)
        ensures
            r == self.cache().lastpos_seq().len(),
    {
        self.recent_packets.station_count()
    }

    /// Renders the recency buffer as ordered log messages.
    pub fn render_log_messages(&self) -> (r: Vec<LogMessage>)
        ensures
            r@.len() == self.cache().recent_seq().len(),
            forall|i: int|
                0 <= i < r@.len() ==> message_matches(
                    #[trigger] r@[i],
                    self.cache().recent_seq()[i],
                ),
    {
        let entries = self.recent_packets.recent_entries();
        let mut out: Vec<LogMessage> = Vec::new();
        let mut i: usize = 0;
        while i < entries.len()
            invariant
                i <= entries@.len(),
                entries@ == self.cache().recent_seq(),
                out@.len() == i,
                forall|k: int|
                    0 <= k < i ==> message_matches(#[trigger] out@[k], entries@[k]),
            decreases entries@.len() - i,
        {
            let m = render_message(&entries[i]);
            out.push(m);
            i = i + 1;
        }
        out
    }

    /// Renders sorted stations as view references, in order.
    pub fn station_refs(&self, pois: &Vec<PoiRef>) -> (r: Vec<FeatureRef>)
        ensures
            r@.len() == pois@.len(),
            forall|i: int|
                0 <= i < r@.len() ==> ({
                    &&& (#[trigger] r@[i]) matches FeatureRef::Beacon {
                        name,
                        slug,
                        location,
                        lastseen,
                    } && name@ == pois@[i].name@ && slug@ == pois@[i].slug@ && location@
                        == pois@[i].location@ && lastseen == pois@[i].lastseen
                }),
    {
        let mut out: Vec<FeatureRef> = Vec::new();
        let mut i: usize = 0;
        while i < pois.len()
            invariant
                i <= pois@.len(),
                out@.len() == i,
                forall|k: int|
                    0 <= k < i ==> ({
                        &&& (#[trigger] out@[k]) matches FeatureRef::Beacon {
                            name,
                            slug,
                            location,
                            lastseen,
                        } && name@ == pois@[k].name@ && slug@ == pois@[k].slug@ && location@
                            == pois@[k].location@ && lastseen == pois@[k].lastseen
                    }),
            decreases pois@.len() - i,
        {
            let p = &pois[i];
            out.push(
                FeatureRef::Beacon {
                    name: p.name.clone(),
                    slug: p.slug.clone(),
                    location: p.location.clone(),
                    lastseen: p.lastseen,
                },
            );
            i = i + 1;
        }
        out
    }

    /// Composes the geometry-free view: the city heading with its year,
    /// the station-count description, the ranked station references,
    /// and the rendered log messages.
    pub fn render_view(&self, pois: Vec<PoiRef>, now: Timestamp, year: u16) -> (r: RenderedView)
        ensures
            r.name@ == "Black Rock City "@ + dec_str(year as int),
            r.description@ == "Watching "@ + dec_str(self.cache().lastpos_seq().len() as int)
                + " APRS stations."@,
            r.time == now,
            r.log@.len() == self.cache().recent_seq().len(),
            forall|i: int|
                0 <= i < r.log@.len() ==> message_matches(
                    #[trigger] r.log@[i],
                    self.cache().recent_seq()[i],
                ),
            r.refs@.len() == pois@.len(),
            exists|q: Seq<PoiRef>|
                #[trigger] refs_match(r.refs@, q) && q.to_multiset() == pois@.to_multiset()
                    && ranked(q),
    {
        proof {
            reveal_strlit("Black Rock City ");
            reveal_strlit("Watching ");
            reveal_strlit(" APRS stations.");
        }
        let mut name = String::new();
        name.append("Black Rock City ");
        let ystr = crate::time::u64_dec_string(year as u64);
        name.append(ystr.as_str());
        let count = self.recent_packets.station_count();
        let mut description = String::new();
        description.append("Watching ");
        let cstr = crate::time::u64_dec_string(count as u64);
        description.append(cstr.as_str());
        description.append(" APRS stations.");
        let sorted = sort_pois(pois);
        let refs = self.station_refs(&sorted);
        let log = self.render_log_messages();
        proof {
            assert(refs_match(refs@, sorted@));
            assert(ranked(sorted@));
        }
        proof {
            assert(name@ =~= "Black Rock City "@ + dec_str(year as int));
            assert(description@ =~= "Watching "@ + dec_str(
                self.cache().lastpos_seq().len() as int,
            ) + " APRS stations."@);
        }
        RenderedView { name, description, time: now, refs, log }
    }

}

} // verus!

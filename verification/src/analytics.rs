//! Query analytics: counters updated after each query and maintenance
//! attempt, persisted as a small JSON document.

use vstd::prelude::*;
use vstd::utf8::encode_utf8;
use crate::bytesutil::dec_bytes;
use crate::bytesutil::u64_to_dec;
use crate::jsonio::esc_json;
use crate::jsonio::escape_json_bytes;
use crate::bytesutil::str_bytes;

verus! {

/// The analytics record: query and hit/miss counters, and the timestamps
/// of the last query and the last maintenance attempt.
#[derive(Debug, Clone)]
pub struct Analytics {
    pub queries: u64,
    pub hits: u64,
    pub misses: u64,
    pub last_query_ts: Option<String>,
    pub last_attempt_ts: Option<String>,
}

impl Analytics {
    /// The zeroed record used when no analytics file exists yet.
    pub fn new() -> (r: Self)
        ensures
            r.queries == 0 && r.hits == 0 && r.misses == 0,
            r.last_query_ts is None && r.last_attempt_ts is None,
    {
        Analytics { queries: 0, hits: 0, misses: 0, last_query_ts: None, last_attempt_ts: None }
    }

    /// Record a maintenance attempt: only the attempt timestamp moves.
    pub fn record_attempt(&mut self, now: String)
        ensures
            final(self).queries == old(self).queries,
            final(self).hits == old(self).hits,
            final(self).misses == old(self).misses,
            final(self).last_query_ts == old(self).last_query_ts,
            final(self).last_attempt_ts == Some(now),
    {
        self.last_attempt_ts = Some(now);
    }

    /// Record one query: the query counter grows by one (saturating), the
    /// hit counter grows exactly when the query was a hit, misses are
    /// recomputed as queries minus hits, and the query timestamp moves.
    pub fn record_query(&mut self, hit: bool, now: String)
        ensures
            final(self).queries == if old(self).queries < u64::MAX {
                old(self).queries + 1
            } else {
                u64::MAX as int
            },
            final(self).hits == if hit && old(self).hits < u64::MAX {
                old(self).hits + 1
            } else {
                old(self).hits as int
            },
            final(self).misses == if final(self).queries >= final(self).hits {
                final(self).queries - final(self).hits
            } else {
                0int
            },
            final(self).last_query_ts == Some(now),
            final(self).last_attempt_ts == old(self).last_attempt_ts,
            !hit ==> final(self).hits == old(self).hits,
            (!hit && old(self).queries < u64::MAX && old(self).hits <= old(self).queries && old(
                self,
            ).misses == old(self).queries - old(self).hits) ==> final(self).misses == old(
                self,
            ).misses + 1,
    {
        self.queries = if self.queries < u64::MAX {
            self.queries + 1
        } else {
            u64::MAX
        };
        if hit && self.hits < u64::MAX {
            self.hits = self.hits + 1;
        }
        self.misses = if self.queries >= self.hits {
            self.queries - self.hits
        } else {
            0
        };
        self.last_query_ts = Some(now);
    }
}

/// An optional string field value: `null`, or a quoted escaped string.
pub open spec fn spec_opt_string_bytes(s: Option<String>) -> Seq<u8> {
    match s {
        None => encode_utf8("null"@),
        Some(t) => seq![0x22u8] + esc_json(encode_utf8(t@)) + seq![0x22u8],
    }
}

/// The analytics document bytes.
pub open spec fn spec_render_analytics(a: Analytics) -> Seq<u8> {
    encode_utf8("{\"queries\":"@) + dec_bytes(a.queries as nat) + encode_utf8(",\"hits\":"@)
        + dec_bytes(a.hits as nat) + encode_utf8(",\"misses\":"@) + dec_bytes(a.misses as nat)
        + encode_utf8(",\"last_query_ts\":"@) + spec_opt_string_bytes(a.last_query_ts)
        + encode_utf8(",\"last_attempt_ts\":"@) + spec_opt_string_bytes(a.last_attempt_ts)
        + encode_utf8("}"@)
}

fn push_opt_string(out: &mut Vec<u8>, s: &Option<String>)
    ensures
        final(out)@ == old(out)@ + spec_opt_string_bytes(*s),
{
    match s {
        None => {
            let mut b = str_bytes("null");
            out.append(&mut b);
        },
        Some(t) => {
            let ghost before = out@;
            out.push(0x22);
            let tb = str_bytes(t.as_str());
            let mut eb = escape_json_bytes(&tb);
            out.append(&mut eb);
            out.push(0x22);
            proof {
                assert(out@ =~= before + spec_opt_string_bytes(Some(*t)));
            }
        },
    }
}

/// Render the analytics document.
pub fn render_analytics(a: &Analytics) -> (out: Vec<u8>)
    ensures
        out@ == spec_render_analytics(*a),
{
    let mut out: Vec<u8> = Vec::new();
    let mut b = str_bytes("{\"queries\":");
    out.append(&mut b);
    let mut n1 = u64_to_dec(a.queries);
    out.append(&mut n1);
    let mut b2 = str_bytes(",\"hits\":");
    out.append(&mut b2);
    let mut n2 = u64_to_dec(a.hits);
    out.append(&mut n2);
    let mut b3 = str_bytes(",\"misses\":");
    out.append(&mut b3);
    let mut n3 = u64_to_dec(a.misses);
    out.append(&mut n3);
    let mut b4 = str_bytes(",\"last_query_ts\":");
    out.append(&mut b4);
    push_opt_string(&mut out, &a.last_query_ts);
    let mut b5 = str_bytes(",\"last_attempt_ts\":");
    out.append(&mut b5);
    push_opt_string(&mut out, &a.last_attempt_ts);
    let mut b6 = str_bytes("}");
    out.append(&mut b6);
    proof {
        assert(out@ =~= spec_render_analytics(*a));
    }
    out
}

} // verus!

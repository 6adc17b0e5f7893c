//! Maintenance decisions: whether indexing is enabled, whether a first-run
//! build should start, and the relative-age text shown by the status
//! report.

use vstd::prelude::*;
use vstd::string::StringExecFns;
use crate::bytesutil::str_chars;
use crate::bytesutil::chars_to_string;
use crate::bytesutil::dec_chars;
use crate::bytesutil::u64_to_dec_chars;

verus! {

/// The indexing kill-switch: the environment value `0`, or `off` in any
/// case, disables background builds.
pub open spec fn spec_indexing_disabled(env: Option<Seq<char>>) -> bool {
    match env {
        None => false,
        Some(v) => {
            ||| v == seq!['0']
            ||| (v.len() == 3 && (v[0] == 'o' || v[0] == 'O') && (v[1] == 'f' || v[1] == 'F') && (
            v[2] == 'f' || v[2] == 'F'))
        },
    }
}

/// Decide whether the environment disables indexing.
pub fn indexing_disabled(env: &Option<String>) -> (r: bool)
    ensures
        r == spec_indexing_disabled(match env {
            None => None,
            Some(v) => Some(v@),
        }),
{
    match env {
        None => false,
        Some(v) => {
            let cs = str_chars(v.as_str());
            let zero = cs.len() == 1 && cs[0] == '0';
            let off = cs.len() == 3 && (cs[0] == 'o' || cs[0] == 'O') && (cs[1] == 'f' || cs[1]
                == 'F') && (cs[2] == 'f' || cs[2] == 'F');
            proof {
                if v@ == seq!['0'] {
                    assert(v@.len() == 1 && v@[0] == '0');
                }
                if zero {
                    assert(v@ =~= seq!['0']);
                }
            }
            zero || off
        },
    }
}

/// A first-run build starts only when indexing is enabled and no manifest
/// exists yet.
pub fn should_spawn_first_run(env: &Option<String>, manifest_exists: bool) -> (r: bool)
    ensures
        r == (!spec_indexing_disabled(match env {
            None => None,
            Some(v) => Some(v@),
        }) && !manifest_exists),
{
    !indexing_disabled(env) && !manifest_exists
}

/// The relative-age bucket for an age in seconds: `now` under a minute,
/// then whole minutes, hours, days and weeks.
pub open spec fn spec_relative_age(secs: int) -> Seq<char> {
    if secs < 60 {
        "now"@
    } else if secs < 3600 {
        dec_chars((secs / 60) as nat) + "m ago"@
    } else if secs < 86400 {
        dec_chars((secs / 3600) as nat) + "h ago"@
    } else if secs < 604800 {
        dec_chars((secs / 86400) as nat) + "d ago"@
    } else {
        dec_chars((secs / 604800) as nat) + "w ago"@
    }
}

/// Render the age of a timestamp, in seconds, as its bucket text.
pub fn relative_age_from_secs(secs: i64) -> (r: String)
    ensures
        r@ == spec_relative_age(secs as int),
{
    if secs < 60 {
        let s: &str = "now";
        s.to_owned()
    } else if secs < 3600 {
        let n = u64_to_dec_chars((secs / 60) as u64);
        let mut out = chars_to_string(&n);
        out.append("m ago");
        out
    } else if secs < 86400 {
        let n = u64_to_dec_chars((secs / 3600) as u64);
        let mut out = chars_to_string(&n);
        out.append("h ago");
        out
    } else if secs < 604800 {
        let n = u64_to_dec_chars((secs / 86400) as u64);
        let mut out = chars_to_string(&n);
        out.append("d ago");
        out
    } else {
        let n = u64_to_dec_chars((secs / 604800) as u64);
        let mut out = chars_to_string(&n);
        out.append("w ago");
        out
    }
}

/// The periodic maintenance rebuild decision: any output from the
/// version-control query for modified, untracked or deleted files means
/// changes, and a rebuild is wanted.
pub fn rebuild_wanted(vcs_status_output: &[u8]) -> (r: bool)
    ensures
        r == (vcs_status_output@.len() > 0),
{
    vcs_status_output.len() > 0
}

/// The instant a timestamp string denotes, in seconds since the epoch,
/// when it reads as an RFC 3339 date-time. The value is fixed by the
/// format; this library relies only on it being a function of the string.
pub uninterp spec fn rfc3339_secs(s: Seq<char>) -> Option<i64>;

/// Relies on `time::OffsetDateTime::parse` with the RFC 3339 format and
/// `unix_timestamp`: the instant a timestamp string denotes.
#[verifier::external_body]
pub fn rfc3339_to_unix(s: &str) -> (r: Option<i64>)
    ensures
        r == rfc3339_secs(s@),
{
    match time::OffsetDateTime::parse(s, &time::format_description::well_known::Rfc3339) {
        Ok(t) => Some(t.unix_timestamp()),
        Err(_) => None,
    }
}

/// Relies on `time::OffsetDateTime::now_utc` and `unix_timestamp`: the
/// current instant in seconds. Nothing is promised of its value.
#[verifier::external_body]
pub fn now_unix_secs() -> i64 {
    time::OffsetDateTime::now_utc().unix_timestamp()
}

/// Relies on `time::OffsetDateTime::now_utc` and RFC 3339 formatting: the
/// current instant as a timestamp string, with the epoch text when
/// formatting fails. Nothing is promised of its value.
#[verifier::external_body]
pub fn now_rfc3339() -> String {
    time::OffsetDateTime::now_utc()
        .format(&time::format_description::well_known::Rfc3339)
        .unwrap_or_else(|_| "1970-01-01T00:00:00Z".to_string())
}

/// The relative age of an RFC 3339 timestamp against the clock: the bucket
/// text for the difference to the current instant, or nothing when the
/// timestamp does not parse.
pub fn relative_age(iso: &str) -> (r: Option<String>)
    ensures
        r is Some <==> rfc3339_secs(iso@) is Some,
        r is Some ==> exists|d: int| r->0@ == spec_relative_age(d),
{
    let t = match rfc3339_to_unix(iso) {
        None => {
            return None;
        },
        Some(t) => t,
    };
    let now = now_unix_secs();
    let d128: i128 = (now as i128) - (t as i128);
    let diff: i64 = if d128 > i64::MAX as i128 {
        i64::MAX
    } else if d128 < i64::MIN as i128 {
        i64::MIN
    } else {
        d128 as i64
    };
    let out = relative_age_from_secs(diff);
    proof {
        assert(out@ == spec_relative_age(diff as int));
        assert(exists|d: int| out@ == spec_relative_age(d));
    }
    Some(out)
}

} // verus!

//! Text the library emits: the per-host log record, the reporter's outcome
//! line, and decimal formatting.
//!
//! Each log record is one line: an RFC 3339 UTC timestamp, a colon and a
//! space, then the raw output line.  The timestamp text comes from chrono
//! behind a trusted wrapper; everything assembled around it is verified.

use vstd::prelude::*;
use crate::multiplex::Outcome;
use crate::util::{dec_str, u64_to_string};

verus! {

/// The RFC 3339 UTC text of a timestamp, to millisecond precision with a
/// `Z` suffix, as chrono renders it.
pub uninterp spec fn rfc3339_of(millis: int) -> Seq<char>;

/// Relies on chrono's `DateTime::from_timestamp_millis` and
/// `to_rfc3339_opts` with millisecond seconds and a `Z` suffix: for an
/// in-range timestamp the text depends on the millisecond count alone.
#[verifier::external_body]
fn rfc3339_millis(millis: i64) -> (r: String)
    requires
        0 <= millis <= 253_402_300_799_999i64,
    ensures
        r@ == rfc3339_of(millis as int),
{
    let dt = chrono::DateTime::from_timestamp_millis(millis).unwrap();
    dt.to_rfc3339_opts(chrono::SecondsFormat::Millis, true)
}

/// One record of the per-host log: the timestamp, a colon and a space, then
/// the raw line.
pub fn log_line(millis: i64, line: &str) -> (r: String)
    requires
        0 <= millis <= 253_402_300_799_999i64,
    ensures
        r@ == rfc3339_of(millis as int) + ": "@ + line@,
{
    let mut s = rfc3339_millis(millis);
    s.append(": ");
    s.append(line);
    s
}

/// The per-host log file: `<dir>/<host>.log`.
pub fn host_log_path(dir: &str, host: &str) -> (r: String)
    ensures
        r@ == dir@ + "/"@ + host@ + ".log"@,
{
    let mut s = String::from_str(dir);
    s.append("/");
    s.append(host);
    s.append(".log");
    s
}

/// The reporter's line for one outcome: the command name, the host it ran
/// on, and the elapsed time in seconds and milliseconds, one tick being a
/// millisecond.
pub fn report_line(o: &Outcome) -> (r: String)
    requires
        o.start_time <= o.end_time,
    ensures
        r@ == "'"@ + o.cmd_name@ + "' run on '"@ + o.host@ + "' in "@ + dec_str(
            (((o.end_time - o.start_time) as u64) / 1000u64) as nat,
        ) + "."@ + dec_str((((o.end_time - o.start_time) as u64) % 1000u64) as nat),
{
    let elapsed = o.end_time - o.start_time;
    let mut s = String::from_str("'");
    s.append(o.cmd_name.as_str());
    s.append("' run on '");
    s.append(o.host.as_str());
    s.append("' in ");
    let secs = u64_to_string(elapsed / 1000);
    s.append(secs.as_str());
    s.append(".");
    let ms = u64_to_string(elapsed % 1000);
    s.append(ms.as_str());
    s
}

/// How many outcomes of a prefix passed.
pub open spec fn count_passed(s: Seq<Outcome>) -> int
    decreases s.len(),
{
    if s.len() == 0 {
        0
    } else {
        count_passed(s.drop_last()) + (if s.last().status is Passed {
            1int
        } else {
            0
        })
    }
}

/// How many outcomes of a prefix were cancelled.
pub open spec fn count_cancelled(s: Seq<Outcome>) -> int
    decreases s.len(),
{
    if s.len() == 0 {
        0
    } else {
        count_cancelled(s.drop_last()) + (if s.last().status is Cancelled {
            1int
        } else {
            0
        })
    }
}

/// The aggregate counts of a run: how many outcomes passed, failed and were
/// cancelled, in that order.
pub fn aggregate_counts(outcomes: &Vec<Outcome>) -> (r: (usize, usize, usize))
    ensures
        r.0 == count_passed(outcomes@),
        r.2 == count_cancelled(outcomes@),
        r.0 + r.1 + r.2 == outcomes@.len(),
{
    proof {
        lemma_counts_bounded(outcomes@);
    }
    let n = outcomes.len();
    let mut passed: usize = 0;
    let mut failed: usize = 0;
    let mut cancelled: usize = 0;
    let mut i: usize = 0;
    while i < n
        invariant
            n == outcomes@.len(),
            i <= n,
            passed == count_passed(outcomes@.take(i as int)),
            cancelled == count_cancelled(outcomes@.take(i as int)),
            passed + failed + cancelled == i,
        decreases n - i,
    {
        proof {
            assert(outcomes@.take(i + 1).drop_last() =~= outcomes@.take(i as int));
            assert(outcomes@.take(i + 1).last() == outcomes@[i as int]);
        }
        match outcomes[i].status {
            crate::multiplex::CmdStatus::Passed => {
                passed += 1;
            },
            crate::multiplex::CmdStatus::Cancelled => {
                cancelled += 1;
            },
            crate::multiplex::CmdStatus::Failed(_) => {
                failed += 1;
            },
        }
        i += 1;
    }
    proof {
        assert(outcomes@.take(n as int) =~= outcomes@);
    }
    (passed, failed, cancelled)
}

/// The counts never exceed the number of outcomes.
proof fn lemma_counts_bounded(s: Seq<Outcome>)
    ensures
        0 <= count_passed(s) <= s.len(),
        0 <= count_cancelled(s) <= s.len(),
    decreases s.len(),
{
    if s.len() == 0 {
    } else {
        lemma_counts_bounded(s.drop_last());
    }
}

/// The process exit code: zero exactly when every outcome passed.
pub fn exit_code(outcomes: &Vec<Outcome>) -> (r: i32)
    ensures
        r == 0 <==> count_passed(outcomes@) == outcomes@.len(),
        r == 0 || r == 1,
{
    proof {
        lemma_counts_bounded(outcomes@);
    }
    let (passed, _, _) = aggregate_counts(outcomes);
    if passed == outcomes.len() {
        0
    } else {
        1
    }
}

} // verus!

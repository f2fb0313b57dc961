//! The multiplexer: a plan and the per-command transport reports become the
//! timed outcomes of a run.
//!
//! The sync cohort runs first, every host in parallel from time zero and
//! every host's commands back to back.  No second-phase host starts before
//! the whole cohort has finished: the barrier is the cohort's latest end.
//! The second phase runs every host from the barrier, either in parallel or,
//! in sync mode, host after host.  The transport hands in one report per
//! planned command — its measured duration and its status — and gets back
//! exactly one outcome per planned command, in plan order.

use vstd::prelude::*;
use crate::config::{MusshToml, str_views};
use crate::error::MusshErrKind;
use crate::selection::{Plan, PlanEntry, PlanCommand, entries_view, cmd_views};
use crate::selection::{
    plan_pairs,
    pair_entry_at,
    lemma_pair_entry_at,
    lemma_plan_requests_once,
    sync_plan_spec,
    rest_plan_spec,
    SelectionRequest,
};

verus! {

/// How one command ended.
#[derive(Clone, Copy, Debug, PartialEq, Eq, Structural)]
pub enum CmdStatus {
    /// The command ran and exited with status zero.
    Passed,
    /// The command failed: a nonzero exit carries no kind, a transport
    /// failure carries its kind.
    Failed(Option<MusshErrKind>),
    /// The run was cancelled before this command finished.
    Cancelled,
}

/// What the transport reports for one executed command.
#[derive(Clone, Copy, Debug, PartialEq, Eq, Structural)]
pub struct TransportReport {
    /// How long the command took, in timer ticks.
    pub duration: u64,
    /// How the command ended.
    pub status: CmdStatus,
}

/// The terminal record of one `(host, command)` attempt.
#[derive(Clone, Debug, PartialEq, Eq)]
pub struct Outcome {
    /// The host the command ran on.
    pub host: String,
    /// The configured name of the command.
    pub cmd_name: String,
    /// When the command started, in ticks from the start of the run.
    pub start_time: u64,
    /// When the command ended.
    pub end_time: u64,
    /// How the command ended.
    pub status: CmdStatus,
}

/// The mathematical shadow of an `Outcome`.
pub struct OutcomeView {
    /// The host name.
    pub host: Seq<char>,
    /// The command name.
    pub name: Seq<char>,
    /// The start tick.
    pub start: int,
    /// The end tick.
    pub end: int,
    /// How the command ended.
    pub status: CmdStatus,
}

impl View for Outcome {
    type V = OutcomeView;

    open spec fn view(&self) -> OutcomeView {
        OutcomeView {
            host: self.host@,
            name: self.cmd_name@,
            start: self.start_time as int,
            end: self.end_time as int,
            status: self.status,
        }
    }
}

/// The views of a sequence of outcomes.
pub open spec fn outcome_views(s: Seq<Outcome>) -> Seq<OutcomeView> {
    s.map_values(|o: Outcome| o@)
}

/// The `(host, command name)` pairs of a sequence of outcome views.
pub open spec fn outcome_pairs(s: Seq<OutcomeView>) -> Seq<(Seq<char>, Seq<char>)> {
    s.map_values(|o: OutcomeView| (o.host, o.name))
}

/// The summed duration of a run of reports.
pub open spec fn total_duration(rs: Seq<TransportReport>) -> int
    decreases rs.len(),
{
    if rs.len() == 0 {
        0
    } else {
        rs[0].duration + total_duration(rs.drop_first())
    }
}

/// Durations are nonnegative, so so is every sum of them.
pub proof fn lemma_total_nonneg(rs: Seq<TransportReport>)
    ensures
        total_duration(rs) >= 0,
    decreases rs.len(),
{
    if rs.len() == 0 {
    } else {
        lemma_total_nonneg(rs.drop_first());
    }
}

/// A run of reports splits at any point into two runs whose sums add up.
pub proof fn lemma_total_split(rs: Seq<TransportReport>, k: int)
    requires
        0 <= k <= rs.len(),
    ensures
        total_duration(rs) == total_duration(rs.take(k)) + total_duration(rs.skip(k)),
    decreases k,
{
    if k == 0 {
        assert(rs.take(0) =~= Seq::<TransportReport>::empty());
        assert(rs.skip(0) =~= rs);
    } else {
        lemma_total_split(rs, k - 1);
        let a = rs.take(k - 1);
        let b = rs.take(k);
        assert(b.drop_first() =~= rs.skip(1).take(k - 1));
        lemma_total_cons(rs, k);
        assert(rs.skip(k - 1)[0] == rs[k - 1]);
        assert(rs.skip(k - 1).drop_first() =~= rs.skip(k));
    }
}

/// Summing one more report extends the sum by its duration.
pub proof fn lemma_total_cons(rs: Seq<TransportReport>, k: int)
    requires
        0 < k <= rs.len(),
    ensures
        total_duration(rs.take(k)) == total_duration(rs.take(k - 1)) + rs[k - 1].duration,
    decreases k,
{
    if k == 1 {
        assert(rs.take(1).drop_first() =~= Seq::<TransportReport>::empty());
        assert(rs.take(0) =~= Seq::<TransportReport>::empty());
        assert(rs.take(1)[0] == rs[0]);
    } else {
        lemma_total_cons(rs.drop_first(), k - 1);
        assert(rs.take(k).drop_first() =~= rs.drop_first().take(k - 1));
        assert(rs.take(k - 1).drop_first() =~= rs.drop_first().take(k - 2));
        assert(rs.take(k)[0] == rs[0]);
        assert(rs.take(k - 1)[0] == rs[0]);
        assert(rs.drop_first()[k - 2] == rs[k - 1]);
    }
}

/// The sum over any contiguous slice is between zero and the whole sum.
pub proof fn lemma_total_subrange_le(rs: Seq<TransportReport>, a: int, b: int)
    requires
        0 <= a <= b <= rs.len(),
    ensures
        0 <= total_duration(rs.subrange(a, b)) <= total_duration(rs),
{
    lemma_total_nonneg(rs.subrange(a, b));
    lemma_total_split(rs, a);
    lemma_total_split(rs.skip(a), b - a);
    lemma_total_nonneg(rs.take(a));
    lemma_total_nonneg(rs.skip(a).skip(b - a));
    assert(rs.skip(a).take(b - a) =~= rs.subrange(a, b));
}

/// The outcomes of one host's command list, the commands running back to
/// back from `base`, each taking its reported duration.
pub open spec fn host_outcomes(
    host: Seq<char>,
    cmds: Seq<(Seq<char>, Seq<char>)>,
    rs: Seq<TransportReport>,
    base: int,
) -> Seq<OutcomeView>
    decreases cmds.len(),
{
    if cmds.len() == 0 {
        Seq::empty()
    } else {
        seq![
            OutcomeView {
                host: host,
                name: cmds[0].0,
                start: base,
                end: base + rs[0].duration,
                status: rs[0].status,
            },
        ] + host_outcomes(host, cmds.drop_first(), rs.drop_first(), base + rs[0].duration)
    }
}

/// The closed form of `host_outcomes`: command `k` starts after the summed
/// durations of the commands before it.
pub proof fn lemma_host_outcomes_index(
    host: Seq<char>,
    cmds: Seq<(Seq<char>, Seq<char>)>,
    rs: Seq<TransportReport>,
    base: int,
)
    requires
        rs.len() == cmds.len(),
    ensures
        host_outcomes(host, cmds, rs, base).len() == cmds.len(),
        forall|k: int|
            0 <= k < cmds.len() ==> #[trigger] host_outcomes(host, cmds, rs, base)[k]
                == (OutcomeView {
                host: host,
                name: cmds[k].0,
                start: base + total_duration(rs.take(k)),
                end: base + total_duration(rs.take(k + 1)),
                status: rs[k].status,
            }),
    decreases cmds.len(),
{
    if cmds.len() == 0 {
    } else {
        lemma_host_outcomes_index(
            host,
            cmds.drop_first(),
            rs.drop_first(),
            base + rs[0].duration,
        );
        let ho = host_outcomes(host, cmds, rs, base);
        let tail = host_outcomes(host, cmds.drop_first(), rs.drop_first(), base + rs[0].duration);
        assert forall|k: int| 0 <= k < cmds.len() implies #[trigger] ho[k] == (OutcomeView {
            host: host,
            name: cmds[k].0,
            start: base + total_duration(rs.take(k)),
            end: base + total_duration(rs.take(k + 1)),
            status: rs[k].status,
        }) by {
            if k == 0 {
                assert(rs.take(0) =~= Seq::<TransportReport>::empty());
                lemma_total_cons(rs, 1);
            } else {
                assert(ho[k] == tail[k - 1]);
                assert(rs.drop_first().take(k - 1) =~= rs.take(k).drop_first());
                assert(rs.drop_first().take(k) =~= rs.take(k + 1).drop_first());
                assert(cmds.drop_first()[k - 1] == cmds[k]);
                assert(rs.drop_first()[k - 1] == rs[k]);
                assert(total_duration(rs.take(k)) == rs[0].duration + total_duration(
                    rs.drop_first().take(k - 1),
                )) by {
                    assert(rs.take(k)[0] == rs[0]);
                }
                assert(total_duration(rs.take(k + 1)) == rs[0].duration + total_duration(
                    rs.drop_first().take(k),
                )) by {
                    assert(rs.take(k + 1)[0] == rs[0]);
                }
            }
        }
    }
}

/// The number of planned commands across a phase's entries.
pub open spec fn cmds_count(entries: Seq<(Seq<char>, Seq<(Seq<char>, Seq<char>)>)>) -> int
    decreases entries.len(),
{
    if entries.len() == 0 {
        0
    } else {
        cmds_count(entries.drop_last()) + entries.last().1.len()
    }
}

/// The command count grows entry by entry and never shrinks.
pub proof fn lemma_cmds_count_take(entries: Seq<(Seq<char>, Seq<(Seq<char>, Seq<char>)>)>, i: int)
    requires
        0 <= i <= entries.len(),
    ensures
        0 <= cmds_count(entries.take(i)) <= cmds_count(entries),
        i < entries.len() ==> cmds_count(entries.take(i + 1)) == cmds_count(entries.take(i))
            + entries[i].1.len(),
    decreases entries.len() - i,
{
    lemma_cmds_count_nonneg(entries.take(i));
    if i < entries.len() {
        assert(entries.take(i + 1).drop_last() =~= entries.take(i));
        assert(entries.take(i + 1).last() == entries[i]);
        lemma_cmds_count_take(entries, i + 1);
    } else {
        assert(entries.take(i) =~= entries);
        lemma_cmds_count_nonneg(entries);
    }
}

/// A command count is never negative.
pub proof fn lemma_cmds_count_nonneg(entries: Seq<(Seq<char>, Seq<(Seq<char>, Seq<char>)>)>)
    ensures
        cmds_count(entries) >= 0,
    decreases entries.len(),
{
    if entries.len() == 0 {
    } else {
        lemma_cmds_count_nonneg(entries.drop_last());
    }
}

/// The outcomes of one phase.  Entry `i` owns the reports after those of the
/// entries before it.  Without serialization every host starts at `base`;
/// with it, each host starts when the one before it has finished.
pub open spec fn phase_outcomes(
    entries: Seq<(Seq<char>, Seq<(Seq<char>, Seq<char>)>)>,
    rs: Seq<TransportReport>,
    base: int,
    serialize: bool,
) -> Seq<OutcomeView>
    decreases entries.len(),
{
    if entries.len() == 0 {
        Seq::empty()
    } else {
        let dl = entries.drop_last();
        let prev = rs.take(cmds_count(dl));
        let mine = rs.subrange(cmds_count(dl), cmds_count(dl) + entries.last().1.len());
        let b = if serialize {
            base + total_duration(prev)
        } else {
            base
        };
        phase_outcomes(dl, prev, base, serialize) + host_outcomes(
            entries.last().0,
            entries.last().1,
            mine,
            b,
        )
    }
}

/// The latest end of a phase whose hosts all start together: the largest
/// per-host duration sum.
pub open spec fn phase_max(
    entries: Seq<(Seq<char>, Seq<(Seq<char>, Seq<char>)>)>,
    rs: Seq<TransportReport>,
) -> int
    decreases entries.len(),
{
    if entries.len() == 0 {
        0
    } else {
        let dl = entries.drop_last();
        let prev = rs.take(cmds_count(dl));
        let mine = rs.subrange(cmds_count(dl), cmds_count(dl) + entries.last().1.len());
        let m = phase_max(dl, prev);
        if total_duration(mine) > m {
            total_duration(mine)
        } else {
            m
        }
    }
}

/// The phase maximum is at least zero and at most the phase's whole sum.
pub proof fn lemma_phase_max_le(
    entries: Seq<(Seq<char>, Seq<(Seq<char>, Seq<char>)>)>,
    rs: Seq<TransportReport>,
)
    requires
        rs.len() == cmds_count(entries),
    ensures
        0 <= phase_max(entries, rs) <= total_duration(rs),
    decreases entries.len(),
{
    lemma_total_nonneg(rs);
    if entries.len() == 0 {
    } else {
        let dl = entries.drop_last();
        let prev = rs.take(cmds_count(dl));
        let mine = rs.subrange(cmds_count(dl), cmds_count(dl) + entries.last().1.len());
        lemma_cmds_count_nonneg(dl);
        lemma_cmds_count_take(entries, entries.len() - 1);
        assert(entries.take(entries.len() - 1) =~= dl);
        lemma_phase_max_le(dl, prev);
        lemma_total_subrange_le(rs, cmds_count(dl), cmds_count(dl) + entries.last().1.len());
        lemma_total_subrange_le(rs, 0, cmds_count(dl));
        assert(rs.subrange(0, cmds_count(dl)) =~= prev);
    }
}

/// The outcomes of a whole run: the sync cohort from time zero, then the
/// remaining hosts from the cohort's latest end.  A dry run produces none.
pub open spec fn multiplex_spec(
    sync_entries: Seq<(Seq<char>, Seq<(Seq<char>, Seq<char>)>)>,
    rest_entries: Seq<(Seq<char>, Seq<(Seq<char>, Seq<char>)>)>,
    sync_mode: bool,
    dry_run: bool,
    rs: Seq<TransportReport>,
) -> Seq<OutcomeView> {
    if dry_run {
        Seq::empty()
    } else {
        let rs1 = rs.take(cmds_count(sync_entries));
        let rs2 = rs.skip(cmds_count(sync_entries));
        let barrier = phase_max(sync_entries, rs1);
        phase_outcomes(sync_entries, rs1, 0, false) + phase_outcomes(
            rest_entries,
            rs2,
            barrier,
            sync_mode,
        )
    }
}

/// The planned command count of one phase, as carried by the plan itself.
pub fn count_cmds(entries: &Vec<PlanEntry>) -> (r: usize)
    requires
        cmds_count(entries_view(entries@)) <= usize::MAX,
    ensures
        r == cmds_count(entries_view(entries@)),
{
    let ghost ev = entries_view(entries@);
    let n = entries.len();
    let mut i: usize = 0;
    let mut c: usize = 0;
    while i < n
        invariant
            n == entries@.len(),
            i <= n,
            ev == entries_view(entries@),
            cmds_count(ev) <= usize::MAX,
            c == cmds_count(ev.take(i as int)),
        decreases n - i,
    {
        proof {
            lemma_cmds_count_take(ev, i as int);
            assert(ev[i as int].1.len() == entries@[i as int].cmds@.len());
            lemma_cmds_count_take(ev, i + 1);
        }
        c += entries[i].cmds.len();
        i += 1;
    }
    proof {
        assert(ev.take(n as int) =~= ev);
    }
    c
}

/// The summed duration of the reports in `[off, off + len)`.
fn sum_range(reports: &Vec<TransportReport>, off: usize, len: usize) -> (r: u64)
    requires
        off + len <= reports@.len(),
        total_duration(reports@) <= u64::MAX,
    ensures
        r == total_duration(reports@.subrange(off as int, off as int + len as int)),
{
    let rlen = reports.len();
    let mut j: usize = 0;
    let mut t: u64 = 0;
    while j < len
        invariant
            rlen == reports@.len(),
            off + len <= rlen,
            total_duration(reports@) <= u64::MAX,
            j <= len,
            t == total_duration(reports@.subrange(off as int, off as int + j as int)),
        decreases len - j,
    {
        proof {
            let a = off as int;
            let b = a + j;
            lemma_total_cons(reports@.subrange(a, b + 1), j + 1);
            assert(reports@.subrange(a, b + 1).take(j + 1) =~= reports@.subrange(a, b + 1));
            assert(reports@.subrange(a, b + 1).take(j as int) =~= reports@.subrange(a, b));
            assert(reports@.subrange(a, b + 1)[j as int] == reports@[b]);
            lemma_total_subrange_le(reports@, a, b + 1);
        }
        t += reports[off + j].duration;
        j += 1;
    }
    t
}

/// Run one host's command list from `base`, answering one outcome per
/// command, back to back.
fn run_host(
    host: &String,
    cmds: &Vec<PlanCommand>,
    reports: &Vec<TransportReport>,
    off: usize,
    base: u64,
) -> (r: Vec<Outcome>)
    requires
        off + cmds@.len() <= reports@.len(),
        base + total_duration(
            reports@.subrange(off as int, off as int + cmds@.len() as int),
        ) <= u64::MAX,
        total_duration(reports@) <= u64::MAX,
    ensures
        outcome_views(r@) == host_outcomes(
            host@,
            cmd_views(cmds@),
            reports@.subrange(off as int, off as int + cmds@.len() as int),
            base as int,
        ),
{
    let ghost slice = reports@.subrange(off as int, off as int + cmds@.len() as int);
    proof {
        lemma_host_outcomes_index(host@, cmd_views(cmds@), slice, base as int);
    }
    let n = cmds.len();
    let rlen = reports.len();
    let mut out: Vec<Outcome> = Vec::new();
    let mut t: u64 = base;
    let mut j: usize = 0;
    while j < n
        invariant
            n == cmds@.len(),
            rlen == reports@.len(),
            off + n <= rlen,
            slice == reports@.subrange(off as int, off as int + n as int),
            base + total_duration(slice) <= u64::MAX,
            j <= n,
            t == base + total_duration(slice.take(j as int)),
            out@.len() == j,
            forall|k: int|
                0 <= k < j ==> #[trigger] out@[k]@ == host_outcomes(
                    host@,
                    cmd_views(cmds@),
                    slice,
                    base as int,
                )[k],
        decreases n - j,
    {
        proof {
            lemma_host_outcomes_index(host@, cmd_views(cmds@), slice, base as int);
            lemma_total_cons(slice, j + 1);
            lemma_total_nonneg(slice.take(j as int));
            lemma_total_subrange_le(slice, 0, j + 1);
            assert(slice.take(j + 1) =~= slice.subrange(0, j + 1));
            lemma_total_split(slice, j + 1);
            lemma_total_nonneg(slice.skip(j + 1));
            assert(slice[j as int] == reports@[off + j]);
        }
        let d = reports[off + j].duration;
        let st = reports[off + j].status;
        out.push(
            Outcome {
                host: host.clone(),
                cmd_name: cmds[j].name.clone(),
                start_time: t,
                end_time: t + d,
                status: st,
            },
        );
        proof {
            assert(cmd_views(cmds@)[j as int].0 == cmds@[j as int].name@);
            let o = out@[j as int];
            assert(o.host@ == host@);
            assert(o.cmd_name@ == cmds@[j as int].name@);
            assert(o@.start == base + total_duration(slice.take(j as int)));
            assert(o@.end == base + total_duration(slice.take(j + 1)));
            assert(o.status == slice[j as int].status);
            let exp = host_outcomes(host@, cmd_views(cmds@), slice, base as int)[j as int];
            assert(exp.host == host@);
            assert(exp.name == cmd_views(cmds@)[j as int].0);
            assert(exp.start == base + total_duration(slice.take(j as int)));
            assert(exp.end == base + total_duration(slice.take(j + 1)));
            assert(exp.status == slice[j as int].status);
            assert(out@[j as int]@ == exp);
        }
        t += d;
        j += 1;
    }
    proof {
        assert(outcome_views(out@) =~= host_outcomes(
            host@,
            cmd_views(cmds@),
            slice,
            base as int,
        ));
    }
    out
}

/// Turn a plan and the transport's per-command reports into the timed
/// outcomes of a run.
///
/// Reports stand in plan order: the sync cohort's commands first, then the
/// second phase's.  One outcome is produced per planned command, in that
/// same order.  A dry run produces no outcomes at all.
pub fn multiplex(
    plan: &Plan,
    sync_mode: bool,
    dry_run: bool,
    reports: &Vec<TransportReport>,
) -> (r: Vec<Outcome>)
    requires
        reports@.len() == cmds_count(entries_view(plan.sync@)) + cmds_count(
            entries_view(plan.rest@),
        ),
        total_duration(reports@) <= u64::MAX,
    ensures
        outcome_views(r@) == multiplex_spec(
            entries_view(plan.sync@),
            entries_view(plan.rest@),
            sync_mode,
            dry_run,
            reports@,
        ),
{
    let ghost sync_e = entries_view(plan.sync@);
    let ghost rest_e = entries_view(plan.rest@);
    if dry_run {
        let out: Vec<Outcome> = Vec::new();
        proof {
            assert(outcome_views(out@) =~= multiplex_spec(
                sync_e,
                rest_e,
                sync_mode,
                true,
                reports@,
            ));
        }
        return out;
    }
    let rlen = reports.len();
    proof {
        lemma_cmds_count_nonneg(sync_e);
        lemma_cmds_count_nonneg(rest_e);
        assert(cmds_count(sync_e) <= rlen);
        assert(cmds_count(rest_e) <= rlen);
    }
    let ghost rs1 = reports@.take(cmds_count(sync_e));
    let ghost rs2 = reports@.skip(cmds_count(sync_e));

    let sync_total = count_cmds(&plan.sync);
    let mut out: Vec<Outcome> = Vec::new();

    // Phase 1: the sync cohort, every host from time zero.
    let sn = plan.sync.len();
    let mut i: usize = 0;
    let mut off: usize = 0;
    while i < sn
        invariant
            sn == plan.sync@.len(),
            sync_e == entries_view(plan.sync@),
            rs1 == reports@.take(cmds_count(sync_e)),
            rlen == reports@.len(),
            reports@.len() == cmds_count(sync_e) + cmds_count(rest_e),
            total_duration(reports@) <= u64::MAX,
            cmds_count(sync_e) >= 0,
            cmds_count(rest_e) >= 0,
            i <= sn,
            off == cmds_count(sync_e.take(i as int)),
            outcome_views(out@) == phase_outcomes(
                sync_e.take(i as int),
                reports@.take(cmds_count(sync_e.take(i as int))),
                0,
                false,
            ),
        decreases sn - i,
    {
        let ghost pre_take = sync_e.take(i as int);
        proof {
            lemma_cmds_count_take(sync_e, i as int);
            lemma_cmds_count_take(sync_e, i + 1);
            lemma_cmds_count_nonneg(rest_e);
            assert(sync_e[i as int].1 == cmd_views(plan.sync@[i as int].cmds@));
            assert(sync_e[i as int].1.len() == plan.sync@[i as int].cmds@.len());
            assert(off + plan.sync@[i as int].cmds@.len() <= rlen);
            lemma_total_subrange_le(
                reports@,
                off as int,
                off as int + plan.sync@[i as int].cmds@.len() as int,
            );
        }
        let here = run_host(&plan.sync[i].host, &plan.sync[i].cmds, reports, off, 0);
        let ghost here_v = outcome_views(here@);
        let mut here_m = here;
        out.append(&mut here_m);
        proof {
            let next_take = sync_e.take(i + 1);
            assert(next_take.drop_last() =~= pre_take);
            assert(next_take.last() == sync_e[i as int]);
            let cc_i = cmds_count(pre_take);
            let cc_n = cmds_count(next_take);
            assert(cc_n == cc_i + sync_e[i as int].1.len());
            assert(reports@.take(cc_n).take(cc_i) =~= reports@.take(cc_i));
            assert(reports@.take(cc_n).subrange(cc_i, cc_i + sync_e[i as int].1.len())
                =~= reports@.subrange(cc_i, cc_i + sync_e[i as int].1.len()));
            assert(sync_e[i as int].0 == plan.sync@[i as int].host@);
            assert(outcome_views(out@) =~= phase_outcomes(
                next_take,
                reports@.take(cc_n),
                0,
                false,
            ));
        }
        off += plan.sync[i].cmds.len();
        i += 1;
    }
    proof {
        assert(sync_e.take(sn as int) =~= sync_e);
    }

    // The barrier: the cohort's latest end.
    let mut barrier: u64 = 0;
    let mut bi: usize = 0;
    let mut boff: usize = 0;
    while bi < sn
        invariant
            sn == plan.sync@.len(),
            sync_e == entries_view(plan.sync@),
            rlen == reports@.len(),
            reports@.len() == cmds_count(sync_e) + cmds_count(rest_e),
            total_duration(reports@) <= u64::MAX,
            cmds_count(rest_e) >= 0,
            bi <= sn,
            boff == cmds_count(sync_e.take(bi as int)),
            barrier == phase_max(sync_e.take(bi as int), reports@.take(
                cmds_count(sync_e.take(bi as int)),
            )),
        decreases sn - bi,
    {
        let ghost pre_take = sync_e.take(bi as int);
        proof {
            lemma_cmds_count_take(sync_e, bi as int);
            lemma_cmds_count_take(sync_e, bi + 1);
            lemma_cmds_count_nonneg(rest_e);
            assert(sync_e[bi as int].1.len() == plan.sync@[bi as int].cmds@.len());
            assert(boff + plan.sync@[bi as int].cmds@.len() <= rlen);
            lemma_total_subrange_le(
                reports@,
                boff as int,
                boff as int + plan.sync@[bi as int].cmds@.len() as int,
            );
        }
        let here = sum_range(reports, boff, plan.sync[bi].cmds.len());
        if here > barrier {
            barrier = here;
        }
        proof {
            let next_take = sync_e.take(bi + 1);
            assert(next_take.drop_last() =~= pre_take);
            assert(next_take.last() == sync_e[bi as int]);
            let cc_i = cmds_count(pre_take);
            let cc_n = cmds_count(next_take);
            assert(reports@.take(cc_n).take(cc_i) =~= reports@.take(cc_i));
            assert(reports@.take(cc_n).subrange(cc_i, cc_i + sync_e[bi as int].1.len())
                =~= reports@.subrange(cc_i, cc_i + sync_e[bi as int].1.len()));
        }
        boff += plan.sync[bi].cmds.len();
        bi += 1;
    }
    proof {
        assert(sync_e.take(sn as int) =~= sync_e);
        assert(reports@.take(cmds_count(sync_e)) =~= rs1);
        lemma_phase_max_le(sync_e, rs1);
        lemma_total_split(reports@, cmds_count(sync_e));
        lemma_total_nonneg(rs2);
        lemma_total_nonneg(rs1);
    }

    // Phase 2: the remaining hosts, from the barrier.
    let rn = plan.rest.len();
    let mut k: usize = 0;
    let mut roff: usize = sync_total;
    let mut cur: u64 = barrier;
    while k < rn
        invariant
            rn == plan.rest@.len(),
            rest_e == entries_view(plan.rest@),
            sync_e == entries_view(plan.sync@),
            rlen == reports@.len(),
            rs1 == reports@.take(cmds_count(sync_e)),
            rs2 == reports@.skip(cmds_count(sync_e)),
            sync_total == cmds_count(sync_e),
            barrier == phase_max(sync_e, rs1),
            0 <= barrier <= total_duration(rs1),
            total_duration(reports@) == total_duration(rs1) + total_duration(rs2),
            reports@.len() == cmds_count(sync_e) + cmds_count(rest_e),
            total_duration(reports@) <= u64::MAX,
            k <= rn,
            roff == cmds_count(sync_e) + cmds_count(rest_e.take(k as int)),
            cur == barrier + (if sync_mode {
                total_duration(rs2.take(cmds_count(rest_e.take(k as int))))
            } else {
                0
            }),
            outcome_views(out@) == phase_outcomes(sync_e, rs1, 0, false) + phase_outcomes(
                rest_e.take(k as int),
                rs2.take(cmds_count(rest_e.take(k as int))),
                barrier as int,
                sync_mode,
            ),
        decreases rn - k,
    {
        let ghost pre_take = rest_e.take(k as int);
        proof {
            lemma_cmds_count_take(rest_e, k as int);
            lemma_cmds_count_take(rest_e, k + 1);
            assert(rest_e[k as int].1 == cmd_views(plan.rest@[k as int].cmds@));
            assert(roff + plan.rest@[k as int].cmds@.len() <= rlen);
            assert(rest_e[k as int].1.len() == plan.rest@[k as int].cmds@.len());
            let cc_i = cmds_count(pre_take);
            let m = rest_e[k as int].1.len() as int;
            // the slice this host owns, inside the whole report run
            assert(rs2.subrange(cc_i, cc_i + m) =~= reports@.subrange(
                cmds_count(sync_e) + cc_i,
                cmds_count(sync_e) + cc_i + m,
            ));
            lemma_total_subrange_le(rs2, cc_i, cc_i + m);
            lemma_total_subrange_le(reports@, roff as int, roff as int + m);
            lemma_total_nonneg(rs2.take(cc_i));
            // cur + this slice stays within the whole sum
            lemma_total_split(rs2, cc_i);
            lemma_total_split(rs2.skip(cc_i), m);
            assert(rs2.skip(cc_i).take(m) =~= rs2.subrange(cc_i, cc_i + m));
            lemma_total_nonneg(rs2.skip(cc_i).skip(m));
        }
        let here = run_host(&plan.rest[k].host, &plan.rest[k].cmds, reports, roff, cur);
        let ghost cur0 = cur;
        let ghost here_v = here@;
        let ghost out0 = out@;
        let mut here_m = here;
        out.append(&mut here_m);
        if sync_mode {
            let d = sum_range(reports, roff, plan.rest[k].cmds.len());
            cur += d;
        }
        proof {
            let next_take = rest_e.take(k + 1);
            assert(next_take.drop_last() =~= pre_take);
            assert(next_take.last() == rest_e[k as int]);
            let cc_i = cmds_count(pre_take);
            let cc_n = cmds_count(next_take);
            let m = rest_e[k as int].1.len() as int;
            assert(cc_n == cc_i + m);
            assert(rs2.take(cc_n).take(cc_i) =~= rs2.take(cc_i));
            assert(rs2.take(cc_n).subrange(cc_i, cc_i + m) =~= rs2.subrange(cc_i, cc_i + m));
            assert(rs2.subrange(cc_i, cc_i + m) =~= reports@.subrange(
                roff as int,
                roff as int + m,
            ));
            assert(rest_e[k as int].0 == plan.rest@[k as int].host@);
            lemma_total_split(rs2.take(cc_n), cc_i);
            assert(rs2.take(cc_n).skip(cc_i) =~= rs2.subrange(cc_i, cc_i + m));
            // the base this host started from is the one the spec gives it
            let b_spec = if sync_mode {
                barrier as int + total_duration(rs2.take(cc_n).take(cc_i))
            } else {
                barrier as int
            };
            assert(b_spec == cur0 as int);
            // unfold one step of the phase
            assert(phase_outcomes(next_take, rs2.take(cc_n), barrier as int, sync_mode)
                == phase_outcomes(pre_take, rs2.take(cc_i), barrier as int, sync_mode)
                + host_outcomes(
                rest_e[k as int].0,
                rest_e[k as int].1,
                rs2.subrange(cc_i, cc_i + m),
                cur0 as int,
            ));
            assert(outcome_views(here_v) == host_outcomes(
                rest_e[k as int].0,
                rest_e[k as int].1,
                rs2.subrange(cc_i, cc_i + m),
                cur0 as int,
            ));
            let rhs = phase_outcomes(sync_e, rs1, 0, false) + phase_outcomes(
                next_take,
                rs2.take(cc_n),
                barrier as int,
                sync_mode,
            );
            assert(out@ == out0 + here_v);
            assert(outcome_views(out0).len() == out0.len());
            assert(outcome_views(here_v).len() == here_v.len());
            assert(rhs.len() == out@.len());
            assert forall|x: int| 0 <= x < out@.len() implies outcome_views(out@)[x] == rhs[x] by {
                if x < out0.len() {
                    assert(out@[x] == out0[x]);
                    assert(outcome_views(out0)[x] == out0[x]@);
                    assert(rhs[x] == outcome_views(out0)[x]);
                } else {
                    assert(out@[x] == here_v[x - out0.len()]);
                    assert(outcome_views(here_v)[x - out0.len()] == here_v[x - out0.len()]@);
                    assert(rhs[x] == outcome_views(here_v)[x - out0.len()]);
                }
            }
            assert(outcome_views(out@) =~= rhs);
        }
        roff += plan.rest[k].cmds.len();
        k += 1;
    }
    proof {
        assert(rest_e.take(rn as int) =~= rest_e);
        assert(rs2.take(cmds_count(rest_e)) =~= rs2);
        assert(outcome_views(out@) =~= multiplex_spec(
            sync_e,
            rest_e,
            sync_mode,
            false,
            reports@,
        ));
    }
    out
}

/// A phase plans as many pairs as it has commands.
pub proof fn lemma_plan_pairs_len(entries: Seq<(Seq<char>, Seq<(Seq<char>, Seq<char>)>)>)
    ensures
        plan_pairs(entries).len() == cmds_count(entries),
    decreases entries.len(),
{
    if entries.len() == 0 {
    } else {
        lemma_plan_pairs_len(entries.drop_last());
    }
}

/// A phase answers its planned pairs exactly, in plan order: the `(host,
/// name)` projection of its outcomes is the flattened plan.
pub proof fn lemma_phase_pairs(
    entries: Seq<(Seq<char>, Seq<(Seq<char>, Seq<char>)>)>,
    rs: Seq<TransportReport>,
    base: int,
    serialize: bool,
)
    requires
        rs.len() == cmds_count(entries),
    ensures
        outcome_pairs(phase_outcomes(entries, rs, base, serialize)) == plan_pairs(entries),
        phase_outcomes(entries, rs, base, serialize).len() == cmds_count(entries),
    decreases entries.len(),
{
    lemma_cmds_count_nonneg(entries);
    if entries.len() == 0 {
    } else {
        let dl = entries.drop_last();
        let prev = rs.take(cmds_count(dl));
        let m = entries.last().1.len() as int;
        let mine = rs.subrange(cmds_count(dl), cmds_count(dl) + m);
        lemma_cmds_count_nonneg(dl);
        lemma_phase_pairs(dl, prev, base, serialize);
        let b = if serialize {
            base + total_duration(prev)
        } else {
            base
        };
        lemma_host_outcomes_index(entries.last().0, entries.last().1, mine, b);
        let ho = host_outcomes(entries.last().0, entries.last().1, mine, b);
        assert(outcome_pairs(ho) =~= entries.last().1.map_values(
            |c: (Seq<char>, Seq<char>)| (entries.last().0, c.0),
        ));
        assert(outcome_pairs(phase_outcomes(entries, rs, base, serialize)) =~= plan_pairs(
            entries,
        ));
    }
}

/// Each of a host's outcomes starts no earlier than the host's base and
/// ends within the host's summed durations; each lasts exactly its reported
/// duration.
pub proof fn lemma_host_outcomes_bounds(
    host: Seq<char>,
    cmds: Seq<(Seq<char>, Seq<char>)>,
    rs: Seq<TransportReport>,
    base: int,
)
    requires
        rs.len() == cmds.len(),
    ensures
        forall|k: int|
            0 <= k < cmds.len() ==> {
                let o = #[trigger] host_outcomes(host, cmds, rs, base)[k];
                &&& base <= o.start
                &&& o.end == o.start + rs[k].duration
                &&& o.end <= base + total_duration(rs)
                &&& o.host == host
            },
{
    lemma_host_outcomes_index(host, cmds, rs, base);
    assert forall|k: int| 0 <= k < cmds.len() implies {
        let o = #[trigger] host_outcomes(host, cmds, rs, base)[k];
        &&& base <= o.start
        &&& o.end == o.start + rs[k].duration
        &&& o.end <= base + total_duration(rs)
        &&& o.host == host
    } by {
        lemma_total_nonneg(rs.take(k));
        lemma_total_cons(rs, k + 1);
        lemma_total_split(rs, k + 1);
        lemma_total_nonneg(rs.skip(k + 1));
        assert(rs.take(rs.len() as int) =~= rs);
    }
}

/// Every outcome of a phase starts at its base or later and ends within the
/// phase's summed durations past the base.
pub proof fn lemma_phase_outcomes_bounds(
    entries: Seq<(Seq<char>, Seq<(Seq<char>, Seq<char>)>)>,
    rs: Seq<TransportReport>,
    base: int,
    serialize: bool,
)
    requires
        rs.len() == cmds_count(entries),
    ensures
        forall|p: int|
            0 <= p < phase_outcomes(entries, rs, base, serialize).len() ==> {
                let o = #[trigger] phase_outcomes(entries, rs, base, serialize)[p];
                &&& base <= o.start
                &&& o.end <= base + total_duration(rs)
            },
    decreases entries.len(),
{
    if entries.len() == 0 {
    } else {
        let dl = entries.drop_last();
        let prev = rs.take(cmds_count(dl));
        let m = entries.last().1.len() as int;
        let mine = rs.subrange(cmds_count(dl), cmds_count(dl) + m);
        lemma_cmds_count_nonneg(dl);
        lemma_phase_outcomes_bounds(dl, prev, base, serialize);
        let b = if serialize {
            base + total_duration(prev)
        } else {
            base
        };
        lemma_total_nonneg(prev);
        lemma_host_outcomes_bounds(entries.last().0, entries.last().1, mine, b);
        lemma_host_outcomes_index(entries.last().0, entries.last().1, mine, b);
        lemma_total_split(rs, cmds_count(dl));
        assert(rs.skip(cmds_count(dl)) =~= mine);
        lemma_total_nonneg(mine);
        lemma_total_subrange_le(rs, 0, cmds_count(dl));
        assert(rs.subrange(0, cmds_count(dl)) =~= prev);
    }
}

/// In a phase whose hosts all start at time zero, every outcome ends by the
/// phase maximum.
pub proof fn lemma_phase_ends_by_max(
    entries: Seq<(Seq<char>, Seq<(Seq<char>, Seq<char>)>)>,
    rs: Seq<TransportReport>,
)
    requires
        rs.len() == cmds_count(entries),
    ensures
        forall|p: int|
            0 <= p < phase_outcomes(entries, rs, 0, false).len() ==> (#[trigger] phase_outcomes(
                entries,
                rs,
                0,
                false,
            )[p]).end <= phase_max(entries, rs),
    decreases entries.len(),
{
    if entries.len() == 0 {
    } else {
        let dl = entries.drop_last();
        let prev = rs.take(cmds_count(dl));
        let m = entries.last().1.len() as int;
        let mine = rs.subrange(cmds_count(dl), cmds_count(dl) + m);
        lemma_cmds_count_nonneg(dl);
        lemma_phase_ends_by_max(dl, prev);
        lemma_host_outcomes_bounds(entries.last().0, entries.last().1, mine, 0);
        lemma_host_outcomes_index(entries.last().0, entries.last().1, mine, 0);
    }
}

/// The sync cohort finishes before the second phase begins: every outcome
/// of the cohort ends no later than any second-phase outcome starts.
pub proof fn lemma_sync_precedes_rest(
    sync_entries: Seq<(Seq<char>, Seq<(Seq<char>, Seq<char>)>)>,
    rest_entries: Seq<(Seq<char>, Seq<(Seq<char>, Seq<char>)>)>,
    sync_mode: bool,
    rs: Seq<TransportReport>,
)
    requires
        rs.len() == cmds_count(sync_entries) + cmds_count(rest_entries),
    ensures
        ({
            let os = multiplex_spec(sync_entries, rest_entries, sync_mode, false, rs);
            let n1 = cmds_count(sync_entries);
            &&& os.len() == cmds_count(sync_entries) + cmds_count(rest_entries)
            &&& forall|a: int, b: int|
                0 <= a < n1 <= b < os.len() ==> (#[trigger] os[a]).end <= (#[trigger] os[b]).start
        }),
{
    let n1 = cmds_count(sync_entries);
    lemma_cmds_count_nonneg(sync_entries);
    lemma_cmds_count_nonneg(rest_entries);
    let rs1 = rs.take(n1);
    let rs2 = rs.skip(n1);
    let barrier = phase_max(sync_entries, rs1);
    lemma_phase_pairs(sync_entries, rs1, 0, false);
    lemma_phase_pairs(rest_entries, rs2, barrier, sync_mode);
    lemma_phase_ends_by_max(sync_entries, rs1);
    lemma_phase_outcomes_bounds(rest_entries, rs2, barrier, sync_mode);
    let os = multiplex_spec(sync_entries, rest_entries, sync_mode, false, rs);
    let p1part = phase_outcomes(sync_entries, rs1, 0, false);
    let p2part = phase_outcomes(rest_entries, rs2, barrier, sync_mode);
    assert forall|a: int, b: int| 0 <= a < n1 <= b < os.len() implies (#[trigger] os[a]).end <= (
    #[trigger] os[b]).start by {
        assert(os[a] == p1part[a]);
        assert(os[b] == p2part[b - n1]);
    }
}

/// When no command takes less than one tick, sums over longer prefixes are
/// strictly larger.
pub proof fn lemma_total_strict_mono(rs: Seq<TransportReport>, k1: int, k2: int)
    requires
        forall|i: int| 0 <= i < rs.len() ==> (#[trigger] rs[i]).duration >= 1,
        0 <= k1 < k2 <= rs.len(),
    ensures
        total_duration(rs.take(k1)) < total_duration(rs.take(k2)),
    decreases k2 - k1,
{
    lemma_total_cons(rs, k2);
    if k1 < k2 - 1 {
        lemma_total_strict_mono(rs, k1, k2 - 1);
    }
}

/// The outcome of a flat phase index is the corresponding command of the
/// corresponding host block.
pub proof fn lemma_phase_outcomes_at(
    entries: Seq<(Seq<char>, Seq<(Seq<char>, Seq<char>)>)>,
    rs: Seq<TransportReport>,
    base: int,
    serialize: bool,
    p: int,
)
    requires
        rs.len() == cmds_count(entries),
        0 <= p < phase_outcomes(entries, rs, base, serialize).len(),
    ensures
        ({
            let (i, c) = pair_entry_at(entries, p);
            let off = cmds_count(entries.take(i));
            let mine = rs.subrange(off, off + entries[i].1.len());
            let b = if serialize {
                base + total_duration(rs.take(off))
            } else {
                base
            };
            &&& 0 <= i < entries.len()
            &&& 0 <= c < entries[i].1.len()
            &&& phase_outcomes(entries, rs, base, serialize)[p] == host_outcomes(
                entries[i].0,
                entries[i].1,
                mine,
                b,
            )[c]
        }),
    decreases entries.len(),
{
    lemma_phase_pairs(entries, rs, base, serialize);
    lemma_plan_pairs_len(entries);
    lemma_pair_entry_at(entries, p);
    if entries.len() == 0 {
    } else {
        let dl = entries.drop_last();
        let prev = rs.take(cmds_count(dl));
        let m = entries.last().1.len() as int;
        let mine = rs.subrange(cmds_count(dl), cmds_count(dl) + m);
        lemma_cmds_count_nonneg(dl);
        lemma_phase_pairs(dl, prev, base, serialize);
        lemma_plan_pairs_len(dl);
        let b = if serialize {
            base + total_duration(prev)
        } else {
            base
        };
        if p < plan_pairs(dl).len() {
            lemma_phase_outcomes_at(dl, prev, base, serialize, p);
            let (i, c) = pair_entry_at(dl, p);
            lemma_pair_entry_at(dl, p);
            assert(dl[i] == entries[i]);
            assert(dl.take(i) =~= entries.take(i));
            let off = cmds_count(entries.take(i));
            lemma_cmds_count_take(dl, i);
            lemma_cmds_count_take(dl, i + 1);
            assert(dl.take(i + 1) =~= entries.take(i + 1));
            assert(prev.subrange(off, off + entries[i].1.len()) =~= rs.subrange(
                off,
                off + entries[i].1.len(),
            ));
            assert(prev.take(off) =~= rs.take(off));
            assert(phase_outcomes(entries, rs, base, serialize)[p] == phase_outcomes(
                dl,
                prev,
                base,
                serialize,
            )[p]);
        } else {
            let i = entries.len() - 1;
            let c = p - plan_pairs(dl).len();
            assert(entries.take(i) =~= dl);
            assert(pair_entry_at(entries, p) == (i, c));
            assert(rs.take(cmds_count(dl)) == prev);
            assert(phase_outcomes(entries, rs, base, serialize)[p] == host_outcomes(
                entries[i].0,
                entries[i].1,
                mine,
                b,
            )[c]);
        }
    }
}

/// Within any one host, start times strictly increase in declared command
/// order — across the whole run, barrier included — as long as every
/// reported duration is at least one tick.
pub proof fn lemma_per_host_order(
    sync_entries: Seq<(Seq<char>, Seq<(Seq<char>, Seq<char>)>)>,
    rest_entries: Seq<(Seq<char>, Seq<(Seq<char>, Seq<char>)>)>,
    sync_mode: bool,
    rs: Seq<TransportReport>,
)
    requires
        rs.len() == cmds_count(sync_entries) + cmds_count(rest_entries),
        forall|i: int| 0 <= i < rs.len() ==> (#[trigger] rs[i]).duration >= 1,
        forall|i: int, j: int|
            0 <= i < j < sync_entries.len() ==> sync_entries[i].0 != sync_entries[j].0,
        forall|i: int, j: int|
            0 <= i < j < rest_entries.len() ==> rest_entries[i].0 != rest_entries[j].0,
    ensures
        ({
            let os = multiplex_spec(sync_entries, rest_entries, sync_mode, false, rs);
            forall|p1: int, p2: int|
                0 <= p1 < p2 < os.len() && (#[trigger] os[p1]).host == (#[trigger] os[p2]).host
                    ==> os[p1].start < os[p2].start
        }),
{
    let n1 = cmds_count(sync_entries);
    lemma_cmds_count_nonneg(sync_entries);
    lemma_cmds_count_nonneg(rest_entries);
    let rs1 = rs.take(n1);
    let rs2 = rs.skip(n1);
    let barrier = phase_max(sync_entries, rs1);
    lemma_phase_pairs(sync_entries, rs1, 0, false);
    lemma_phase_pairs(rest_entries, rs2, barrier, sync_mode);
    lemma_phase_ends_by_max(sync_entries, rs1);
    lemma_phase_outcomes_bounds(rest_entries, rs2, barrier, sync_mode);
    let os = multiplex_spec(sync_entries, rest_entries, sync_mode, false, rs);
    let p1part = phase_outcomes(sync_entries, rs1, 0, false);
    let p2part = phase_outcomes(rest_entries, rs2, barrier, sync_mode);
    assert(forall|i: int| 0 <= i < rs1.len() ==> (#[trigger] rs1[i]).duration >= 1);
    assert(forall|i: int| 0 <= i < rs2.len() ==> (#[trigger] rs2[i]).duration >= 1);
    assert forall|p1: int, p2: int|
        0 <= p1 < p2 < os.len() && (#[trigger] os[p1]).host == (#[trigger] os[p2]).host implies os[
        p1].start < os[p2].start by {
        if p2 < n1 {
            lemma_phase_same_host_order(sync_entries, rs1, 0, false, p1, p2);
        } else if p1 >= n1 {
            assert(os[p1] == p2part[p1 - n1]);
            assert(os[p2] == p2part[p2 - n1]);
            lemma_phase_same_host_order(rest_entries, rs2, barrier, sync_mode, p1 - n1, p2 - n1);
        } else {
            // across the barrier: the first ends by the barrier, and starts
            // strictly before its own end
            assert(os[p1] == p1part[p1]);
            assert(os[p2] == p2part[p2 - n1]);
            lemma_phase_outcomes_at(sync_entries, rs1, 0, false, p1);
            let (i, c) = pair_entry_at(sync_entries, p1);
            let off = cmds_count(sync_entries.take(i));
            let mine = rs1.subrange(off, off + sync_entries[i].1.len());
            lemma_cmds_count_take(sync_entries, i);
            lemma_cmds_count_take(sync_entries, i + 1);
            lemma_host_outcomes_bounds(sync_entries[i].0, sync_entries[i].1, mine, 0);
            assert(os[p1].end == os[p1].start + mine[c].duration);
            assert(mine[c] == rs1[off + c]);
            assert(os[p1].start < os[p1].end);
        }
    }
}

/// The per-host order law for a plan the resolver built: its hosts are
/// distinct within each phase, so whenever every reported duration is at
/// least one tick, any one host's start times strictly increase in declared
/// command order across the whole run.
pub proof fn lemma_per_host_order_for_plan(
    toml: MusshToml,
    req: SelectionRequest,
    sync_mode: bool,
    rs: Seq<TransportReport>,
)
    requires
        rs.len() == cmds_count(sync_plan_spec(toml, req)) + cmds_count(rest_plan_spec(toml, req)),
        forall|i: int| 0 <= i < rs.len() ==> (#[trigger] rs[i]).duration >= 1,
    ensures
        ({
            let os = multiplex_spec(
                sync_plan_spec(toml, req),
                rest_plan_spec(toml, req),
                sync_mode,
                false,
                rs,
            );
            forall|p1: int, p2: int|
                0 <= p1 < p2 < os.len() && (#[trigger] os[p1]).host == (#[trigger] os[p2]).host
                    ==> os[p1].start < os[p2].start
        }),
{
    let se = sync_plan_spec(toml, req);
    let re = rest_plan_spec(toml, req);
    crate::selection::lemma_resolved_hosts_props(toml, str_views(req.sync_hosts@));
    crate::selection::lemma_resolved_hosts_props(toml, str_views(req.hosts@));
    let sh = crate::selection::sync_hosts_resolved(toml, req);
    let mh = crate::selection::main_hosts_resolved(toml, req);
    assert(forall|i: int, j: int| 0 <= i < j < se.len() ==> se[i].0 != se[j].0);
    assert(forall|i: int, j: int| 0 <= i < j < re.len() ==> re[i].0 != re[j].0);
    lemma_per_host_order(se, re, sync_mode, rs);
}

/// Within one phase, two outcomes of the same host stand in the same host
/// block, and the later one starts strictly later.
pub proof fn lemma_phase_same_host_order(
    entries: Seq<(Seq<char>, Seq<(Seq<char>, Seq<char>)>)>,
    rs: Seq<TransportReport>,
    base: int,
    serialize: bool,
    p1: int,
    p2: int,
)
    requires
        rs.len() == cmds_count(entries),
        forall|i: int| 0 <= i < rs.len() ==> (#[trigger] rs[i]).duration >= 1,
        forall|i: int, j: int| 0 <= i < j < entries.len() ==> entries[i].0 != entries[j].0,
        0 <= p1 < p2 < phase_outcomes(entries, rs, base, serialize).len(),
        phase_outcomes(entries, rs, base, serialize)[p1].host == phase_outcomes(
            entries,
            rs,
            base,
            serialize,
        )[p2].host,
    ensures
        phase_outcomes(entries, rs, base, serialize)[p1].start < phase_outcomes(
            entries,
            rs,
            base,
            serialize,
        )[p2].start,
{
    lemma_phase_pairs(entries, rs, base, serialize);
    lemma_plan_pairs_len(entries);
    lemma_phase_outcomes_at(entries, rs, base, serialize, p1);
    lemma_phase_outcomes_at(entries, rs, base, serialize, p2);
    lemma_pair_entry_at(entries, p1);
    lemma_pair_entry_at(entries, p2);
    let (i1, c1) = pair_entry_at(entries, p1);
    let (i2, c2) = pair_entry_at(entries, p2);
    let off1 = cmds_count(entries.take(i1));
    let off2 = cmds_count(entries.take(i2));
    let mine1 = rs.subrange(off1, off1 + entries[i1].1.len());
    lemma_cmds_count_take(entries, i1);
    lemma_cmds_count_take(entries, i1 + 1);
    lemma_cmds_count_take(entries, i2);
    lemma_cmds_count_take(entries, i2 + 1);
    lemma_host_outcomes_index(
        entries[i1].0,
        entries[i1].1,
        mine1,
        if serialize {
            base + total_duration(rs.take(off1))
        } else {
            base
        },
    );
    lemma_host_outcomes_index(
        entries[i2].0,
        entries[i2].1,
        rs.subrange(off2, off2 + entries[i2].1.len()),
        if serialize {
            base + total_duration(rs.take(off2))
        } else {
            base
        },
    );
    assert(phase_outcomes(entries, rs, base, serialize)[p1].host == entries[i1].0);
    assert(phase_outcomes(entries, rs, base, serialize)[p2].host == entries[i2].0);
    if i1 != i2 {
        if i1 < i2 {
            assert(entries[i1].0 != entries[i2].0);
        } else {
            assert(entries[i2].0 != entries[i1].0);
        }
        assert(false);
    }
    // same host block: the pair offsets pin the command positions
    assert(crate::selection::plan_pairs(entries.take(i1)).len() == cmds_count(entries.take(i1)))
        by {
        lemma_plan_pairs_len(entries.take(i1));
    }
    assert(p1 == cmds_count(entries.take(i1)) + c1);
    assert(p2 == cmds_count(entries.take(i2)) + c2);
    assert(c1 < c2);
    assert forall|x: int| 0 <= x < mine1.len() implies (#[trigger] mine1[x]).duration >= 1 by {
        assert(mine1[x] == rs[off1 + x]);
    }
    lemma_total_strict_mono(mine1, c1, c2);
}

/// A dry run produces no outcomes at all.
pub proof fn lemma_dry_run_silent(
    sync_entries: Seq<(Seq<char>, Seq<(Seq<char>, Seq<char>)>)>,
    rest_entries: Seq<(Seq<char>, Seq<(Seq<char>, Seq<char>)>)>,
    sync_mode: bool,
    rs: Seq<TransportReport>,
)
    ensures
        multiplex_spec(sync_entries, rest_entries, sync_mode, true, rs).len() == 0,
{
}

/// The outcomes are a function of the plan and the transport reports alone:
/// two runs over the same plan, mode and reports yield the same outcome
/// sequence.
pub proof fn lemma_multiplex_deterministic(
    sync_a: Seq<(Seq<char>, Seq<(Seq<char>, Seq<char>)>)>,
    rest_a: Seq<(Seq<char>, Seq<(Seq<char>, Seq<char>)>)>,
    mode_a: bool,
    dry_a: bool,
    rs_a: Seq<TransportReport>,
    sync_b: Seq<(Seq<char>, Seq<(Seq<char>, Seq<char>)>)>,
    rest_b: Seq<(Seq<char>, Seq<(Seq<char>, Seq<char>)>)>,
    mode_b: bool,
    dry_b: bool,
    rs_b: Seq<TransportReport>,
)
    requires
        sync_a == sync_b,
        rest_a == rest_b,
        mode_a == mode_b,
        dry_a == dry_b,
        rs_a == rs_b,
    ensures
        multiplex_spec(sync_a, rest_a, mode_a, dry_a, rs_a) == multiplex_spec(
            sync_b,
            rest_b,
            mode_b,
            dry_b,
            rs_b,
        ),
{
}

/// Exclusions are total: no outcome is ever produced for a host name an
/// active `!` token strikes from its selection.
pub proof fn lemma_no_outcome_for_excluded(
    toml: MusshToml,
    req: SelectionRequest,
    sync_mode: bool,
    rs: Seq<TransportReport>,
    x: Seq<char>,
)
    requires
        crate::selection::is_excluded(str_views(req.hosts@), x),
        crate::selection::is_excluded(str_views(req.sync_hosts@), x),
        rs.len() == cmds_count(sync_plan_spec(toml, req)) + cmds_count(rest_plan_spec(toml, req)),
    ensures
        forall|p: int|
            0 <= p < multiplex_spec(
                sync_plan_spec(toml, req),
                rest_plan_spec(toml, req),
                sync_mode,
                false,
                rs,
            ).len() ==> (#[trigger] multiplex_spec(
                sync_plan_spec(toml, req),
                rest_plan_spec(toml, req),
                sync_mode,
                false,
                rs,
            )[p]).host != x,
{
    let se = sync_plan_spec(toml, req);
    let re = rest_plan_spec(toml, req);
    let rs1 = rs.take(cmds_count(se));
    let rs2 = rs.skip(cmds_count(se));
    lemma_cmds_count_nonneg(se);
    lemma_cmds_count_nonneg(re);
    let barrier = phase_max(se, rs1);
    lemma_phase_pairs(se, rs1, 0, false);
    lemma_phase_pairs(re, rs2, barrier, sync_mode);
    crate::selection::lemma_exclusions_total(toml, str_views(req.hosts@), x);
    crate::selection::lemma_exclusions_total(toml, str_views(req.sync_hosts@), x);
    crate::selection::lemma_plan_pairs_membership(se);
    crate::selection::lemma_plan_pairs_membership(re);
    let os = multiplex_spec(se, re, sync_mode, false, rs);
    let p1part = phase_outcomes(se, rs1, 0, false);
    let p2part = phase_outcomes(re, rs2, barrier, sync_mode);
    let sh = crate::selection::sync_hosts_resolved(toml, req);
    let mh = crate::selection::main_hosts_resolved(toml, req);
    assert forall|p: int| 0 <= p < os.len() implies (#[trigger] os[p]).host != x by {
        let n1 = plan_pairs(se).len();
        if p < n1 {
            assert(os[p] == p1part[p]);
            assert(outcome_pairs(p1part)[p] == (p1part[p].host, p1part[p].name));
            assert(plan_pairs(se)[p] == (p1part[p].host, p1part[p].name));
            assert(crate::selection::pair_in_entries(se, plan_pairs(se)[p]));
            let (i, c) = choose|i: int, c: int|
                0 <= i < se.len() && 0 <= c < se[i].1.len() && plan_pairs(se)[p] == (
                    se[i].0,
                    #[trigger] se[i].1[c].0,
                );
            assert(se[i].0 == sh[i]);
            assert(sh.contains(sh[i]));
            if p1part[p].host == x {
                assert(sh.contains(x));
                assert(false);
            }
        } else {
            assert(os[p] == p2part[p - n1]);
            let q = p - n1;
            assert(outcome_pairs(p2part)[q] == (p2part[q].host, p2part[q].name));
            assert(plan_pairs(re)[q] == (p2part[q].host, p2part[q].name));
            assert(crate::selection::pair_in_entries(re, plan_pairs(re)[q]));
            let (i, c) = choose|i: int, c: int|
                0 <= i < re.len() && 0 <= c < re[i].1.len() && plan_pairs(re)[q] == (
                    re[i].0,
                    #[trigger] re[i].1[c].0,
                );
            assert(re[i].0 == mh[i]);
            assert(mh.contains(mh[i]));
            if p2part[q].host == x {
                assert(mh.contains(x));
                assert(false);
            }
        }
    }
}

/// Every requested pair is answered exactly once.
///
/// For a plan built from a request whose command tokens are pairwise
/// distinct within each selection, the run's outcomes project exactly onto
/// the plan's `(host, command name)` pairs — so each planned pair is
/// answered — and no two outcomes answer the same pair.
pub proof fn lemma_each_request_once(
    toml: MusshToml,
    req: SelectionRequest,
    sync_mode: bool,
    rs: Seq<TransportReport>,
)
    requires
        forall|i: int, j: int|
            0 <= i < j < str_views(req.commands@).len() ==> str_views(req.commands@)[i]
                != str_views(req.commands@)[j],
        forall|i: int, j: int|
            0 <= i < j < str_views(req.sync_commands@).len() ==> str_views(req.sync_commands@)[i]
                != str_views(req.sync_commands@)[j],
        rs.len() == cmds_count(sync_plan_spec(toml, req)) + cmds_count(rest_plan_spec(toml, req)),
    ensures
        ({
            let os = multiplex_spec(
                sync_plan_spec(toml, req),
                rest_plan_spec(toml, req),
                sync_mode,
                false,
                rs,
            );
            &&& outcome_pairs(os) == plan_pairs(sync_plan_spec(toml, req)) + plan_pairs(
                rest_plan_spec(toml, req),
            )
            &&& forall|p1: int, p2: int|
                0 <= p1 < p2 < os.len() ==> outcome_pairs(os)[p1] != outcome_pairs(os)[p2]
        }),
{
    let se = sync_plan_spec(toml, req);
    let re = rest_plan_spec(toml, req);
    let rs1 = rs.take(cmds_count(se));
    let rs2 = rs.skip(cmds_count(se));
    lemma_cmds_count_nonneg(se);
    lemma_cmds_count_nonneg(re);
    let barrier = phase_max(se, rs1);
    lemma_phase_pairs(se, rs1, 0, false);
    lemma_phase_pairs(re, rs2, barrier, sync_mode);
    let os = multiplex_spec(se, re, sync_mode, false, rs);
    let p1part = phase_outcomes(se, rs1, 0, false);
    let p2part = phase_outcomes(re, rs2, barrier, sync_mode);
    assert(outcome_pairs(os) =~= outcome_pairs(p1part) + outcome_pairs(p2part));
    lemma_plan_requests_once(toml, req);
    let all = plan_pairs(se) + plan_pairs(re);
    assert(outcome_pairs(os) == all);
    assert(os.len() == all.len()) by {
        assert(outcome_pairs(os).len() == os.len());
    }
}

} // verus!

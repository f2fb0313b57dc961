//! The multiplexer: timing, the barrier, statuses, determinism.

use mussh::error::MusshErrKind;
use mussh::logfmt::{aggregate_counts, exit_code, report_line};
use mussh::multiplex::{multiplex, CmdStatus, Outcome, TransportReport};
use mussh::selection::{Plan, PlanCommand, PlanEntry};

fn entry(host: &str, cmds: &[(&str, &str)]) -> PlanEntry {
    PlanEntry {
        host: host.to_string(),
        cmds: cmds
            .iter()
            .map(|(n, c)| PlanCommand { name: n.to_string(), cmd: c.to_string() })
            .collect(),
    }
}

fn ok(duration: u64) -> TransportReport {
    TransportReport { duration, status: CmdStatus::Passed }
}

#[test]
fn barrier_orders_phases() {
    let plan = Plan {
        sync: vec![entry("pre", &[("c0", "sleep 5")])],
        rest: vec![entry("a", &[("c1", "uptime")]), entry("b", &[("c1", "uptime")])],
    };
    let reports = vec![ok(5), ok(2), ok(3)];
    let out = multiplex(&plan, false, false, &reports);
    assert_eq!(out.len(), 3);
    // the cohort's outcome ends before any second-phase outcome begins
    assert_eq!(out[0].host, "pre");
    assert_eq!(out[0].end_time, 5);
    assert!(out[1].start_time >= out[0].end_time);
    assert!(out[2].start_time >= out[0].end_time);
    // without sync mode both hosts start at the barrier
    assert_eq!(out[1].start_time, 5);
    assert_eq!(out[2].start_time, 5);
}

#[test]
fn sync_mode_serializes_the_second_phase() {
    let plan = Plan {
        sync: Vec::new(),
        rest: vec![entry("a", &[("sleep", "sleep 1")]), entry("b", &[("sleep", "sleep 1")])],
    };
    let reports = vec![ok(1000), ok(1000)];

    // in parallel both run over the same second
    let parallel = multiplex(&plan, false, false, &reports);
    assert_eq!(parallel[0].start_time, 0);
    assert_eq!(parallel[1].start_time, 0);
    assert_eq!(parallel.iter().map(|o| o.end_time).max(), Some(1000));

    // serialized the second waits for the first
    let serial = multiplex(&plan, true, false, &reports);
    assert_eq!(serial[0].start_time, 0);
    assert_eq!(serial[0].end_time, 1000);
    assert_eq!(serial[1].start_time, 1000);
    assert_eq!(serial[1].end_time, 2000);
}

#[test]
fn commands_of_one_host_run_back_to_back() {
    let plan = Plan {
        sync: Vec::new(),
        rest: vec![entry("a", &[("one", "x"), ("two", "y"), ("three", "z")])],
    };
    let reports = vec![ok(10), ok(20), ok(30)];
    let out = multiplex(&plan, false, false, &reports);
    assert_eq!(out.len(), 3);
    assert_eq!((out[0].start_time, out[0].end_time), (0, 10));
    assert_eq!((out[1].start_time, out[1].end_time), (10, 30));
    assert_eq!((out[2].start_time, out[2].end_time), (30, 60));
    assert!(out[0].start_time < out[1].start_time);
    assert!(out[1].start_time < out[2].start_time);
}

#[test]
fn dry_run_produces_no_outcomes() {
    let plan = Plan {
        sync: vec![entry("pre", &[("c0", "x")])],
        rest: vec![entry("a", &[("c1", "y")])],
    };
    let reports = vec![ok(1), ok(1)];
    let out = multiplex(&plan, false, true, &reports);
    assert!(out.is_empty());
}

#[test]
fn same_inputs_same_outcomes() {
    let plan = Plan {
        sync: vec![entry("pre", &[("c0", "x")])],
        rest: vec![entry("a", &[("c1", "y"), ("c2", "z")]), entry("b", &[("c1", "y")])],
    };
    let reports = vec![
        ok(7),
        ok(3),
        TransportReport {
            duration: 4,
            status: CmdStatus::Failed(Some(MusshErrKind::SshSession)),
        },
        ok(5),
    ];
    let first = multiplex(&plan, true, false, &reports);
    let second = multiplex(&plan, true, false, &reports);
    assert_eq!(first, second);
}

#[test]
fn each_planned_pair_answered_once_in_order() {
    let plan = Plan {
        sync: vec![entry("pre", &[("c0", "x")])],
        rest: vec![entry("a", &[("c1", "y"), ("c2", "z")]), entry("b", &[("c1", "y")])],
    };
    let reports = vec![ok(1), ok(1), ok(1), ok(1)];
    let out = multiplex(&plan, false, false, &reports);
    let pairs: Vec<(&str, &str)> =
        out.iter().map(|o| (o.host.as_str(), o.cmd_name.as_str())).collect();
    assert_eq!(pairs, vec![("pre", "c0"), ("a", "c1"), ("a", "c2"), ("b", "c1")]);
}

#[test]
fn statuses_carry_through() {
    let plan = Plan {
        sync: Vec::new(),
        rest: vec![entry("a", &[("c1", "y"), ("c2", "z"), ("c3", "w")])],
    };
    let reports = vec![
        ok(1),
        TransportReport { duration: 2, status: CmdStatus::Failed(None) },
        TransportReport { duration: 3, status: CmdStatus::Cancelled },
    ];
    let out = multiplex(&plan, false, false, &reports);
    assert_eq!(out[0].status, CmdStatus::Passed);
    assert_eq!(out[1].status, CmdStatus::Failed(None));
    assert_eq!(out[2].status, CmdStatus::Cancelled);
}

#[test]
fn report_line_renders_duration() {
    let o = Outcome {
        host: "m1".to_string(),
        cmd_name: "uptime".to_string(),
        start_time: 250,
        end_time: 1750,
        status: CmdStatus::Passed,
    };
    assert_eq!(report_line(&o), "'uptime' run on 'm1' in 1.500");
    let quick = Outcome {
        host: "m2".to_string(),
        cmd_name: "true".to_string(),
        start_time: 0,
        end_time: 3,
        status: CmdStatus::Passed,
    };
    assert_eq!(report_line(&quick), "'true' run on 'm2' in 0.3");
}

#[test]
fn counts_and_exit_code_aggregate() {
    let outcome = |status: CmdStatus| Outcome {
        host: "m1".to_string(),
        cmd_name: "c".to_string(),
        start_time: 0,
        end_time: 1,
        status,
    };
    let all_ok = vec![outcome(CmdStatus::Passed), outcome(CmdStatus::Passed)];
    assert_eq!(aggregate_counts(&all_ok), (2, 0, 0));
    assert_eq!(exit_code(&all_ok), 0);

    let mixed = vec![
        outcome(CmdStatus::Passed),
        outcome(CmdStatus::Failed(None)),
        outcome(CmdStatus::Failed(Some(MusshErrKind::SshAuthentication))),
        outcome(CmdStatus::Cancelled),
    ];
    assert_eq!(aggregate_counts(&mixed), (1, 2, 1));
    assert_eq!(exit_code(&mixed), 1);

    let empty: Vec<Outcome> = Vec::new();
    assert_eq!(aggregate_counts(&empty), (0, 0, 0));
    assert_eq!(exit_code(&empty), 0);
}

use tcp_ping::address::{parse_args, Cli, ConfigError, IpAddress, Target};
use tcp_ping::ping::{
    do_tcp_ping, Effect, Line, PingConfig, PingSession, PingState, TrialResult,
};
use tcp_ping::stats::{RunningStats, Summary};

fn target() -> Target {
    Target { address: IpAddress::V4(0x7f00_0001), port: 7 }
}

fn trial(latency: u64) -> Effect {
    Effect::Emit { line: Line::Trial { latency } }
}

fn count_lines(lines: &[Line]) -> (usize, usize, usize) {
    let trials = lines.iter().filter(|l| matches!(l, Line::Trial { .. })).count();
    let failures = lines.iter().filter(|l| matches!(l, Line::Failure { .. })).count();
    let summaries = lines.iter().filter(|l| matches!(l, Line::Summary { .. })).count();
    (trials, failures, summaries)
}

#[test]
fn three_trials_against_an_open_port() {
    let target = parse_args(Cli {
        v6: false,
        host: "127.0.0.1".to_string(),
        port: 4000,
        interval: 0,
        count: 3,
    })
    .unwrap();
    let results =
        vec![TrialResult::connected(250_000), TrialResult::connected(0), TrialResult::connected(120_000)];
    let report = do_tcp_ping(target, 0, 3, &results).unwrap();
    let summary = Summary { min: 0, avg: 123_333, max: 250_000 };
    assert_eq!(report.state, PingState::Completed { summary });
    assert_eq!(
        report.effects,
        vec![
            trial(250_000),
            Effect::Sleep { seconds: 0 },
            trial(0),
            Effect::Sleep { seconds: 0 },
            trial(120_000),
            Effect::Emit { line: Line::Summary { summary } },
        ]
    );
    let lines = report.lines();
    assert_eq!(count_lines(&lines), (3, 0, 1));
    assert_eq!(lines.last(), Some(&Line::Summary { summary }));
}

#[test]
fn closed_port_over_ipv6() {
    let target = parse_args(Cli {
        v6: true,
        host: "::1".to_string(),
        port: 9,
        interval: 1,
        count: 10,
    })
    .unwrap();
    assert_eq!(target, Target { address: IpAddress::V6(1), port: 9 });
    let report = do_tcp_ping(target, 1, 10, &vec![TrialResult::unreachable()]).unwrap();
    assert_eq!(report.state, PingState::Aborted { trial: 1 });
    assert_eq!(report.effects, vec![Effect::Emit { line: Line::Failure { target } }]);
    assert_eq!(count_lines(&report.lines()), (0, 1, 0));
}

#[test]
fn as_many_trial_lines_as_trials() {
    for count in [1u32, 2, 5, 17] {
        let results: Vec<TrialResult> =
            (0..count).map(|k| TrialResult::connected(1_000 * (k as u64 + 1))).collect();
        let report = do_tcp_ping(target(), 2, count, &results).unwrap();
        let lines = report.lines();
        assert_eq!(count_lines(&lines), (count as usize, 0, 1));
        let sleeps = report.effects.iter().filter(|e| matches!(e, Effect::Sleep { seconds: 2 })).count();
        assert_eq!(sleeps, count as usize - 1);
        match report.state {
            PingState::Completed { summary } => {
                assert!(summary.min <= summary.avg && summary.avg <= summary.max);
                assert_eq!(summary.min, 1_000);
                assert_eq!(summary.max, 1_000 * count as u64);
                assert_eq!(summary.avg, 500 * (count as u64 + 1));
            }
            other => panic!("{:?}", other),
        }
    }
}

#[test]
fn single_trial() {
    let report = do_tcp_ping(target(), 1, 1, &vec![TrialResult::connected(1_234_567)]).unwrap();
    let summary = Summary { min: 1_234_567, avg: 1_234_567, max: 1_234_567 };
    assert_eq!(report.state, PingState::Completed { summary });
    assert_eq!(
        report.effects,
        vec![trial(1_234_567), Effect::Emit { line: Line::Summary { summary } }]
    );
    assert_eq!(report.lines(), vec![Line::Trial { latency: 1_234_567 }, Line::Summary { summary }]);
}

#[test]
fn failure_ends_the_series_whatever_the_count() {
    for count in [1u32, 2, 10, u32::MAX] {
        let report = do_tcp_ping(target(), 1, count, &vec![TrialResult::unreachable()]).unwrap();
        assert_eq!(report.state, PingState::Aborted { trial: 1 });
        assert_eq!(count_lines(&report.lines()), (0, 1, 0));
        assert_eq!(report.effects.len(), 1);
    }
}

#[test]
fn failure_after_successes_discards_the_statistics() {
    let results = vec![
        TrialResult::connected(10),
        TrialResult::connected(20),
        TrialResult { latency: 999, success: false },
        TrialResult::connected(30),
        TrialResult::connected(40),
    ];
    let report = do_tcp_ping(target(), 3, 5, &results).unwrap();
    assert_eq!(report.state, PingState::Aborted { trial: 3 });
    assert_eq!(
        report.effects,
        vec![
            trial(10),
            Effect::Sleep { seconds: 3 },
            trial(20),
            Effect::Sleep { seconds: 3 },
            Effect::Emit { line: Line::Failure { target: target() } },
        ]
    );
    assert_eq!(count_lines(&report.lines()), (2, 1, 0));
}

#[test]
fn no_trials_is_a_configuration_error() {
    assert_eq!(do_tcp_ping(target(), 1, 0, &vec![]).err(), Some(ConfigError::ZeroCount));
    assert_eq!(
        do_tcp_ping(target(), 1, 0, &vec![TrialResult::connected(1)]).err(),
        Some(ConfigError::ZeroCount)
    );
    assert!(matches!(PingSession::start(target(), 1, 0), Err(ConfigError::ZeroCount)));
}

#[test]
fn outcomes_after_the_end_are_not_looked_at() {
    let results: Vec<TrialResult> = vec![
        TrialResult::connected(5),
        TrialResult::connected(6),
        TrialResult::unreachable(),
        TrialResult::connected(7),
    ];
    let report = do_tcp_ping(target(), 0, 2, &results).unwrap();
    assert_eq!(report.state, PingState::Completed { summary: Summary { min: 5, avg: 5, max: 6 } });
    assert_eq!(count_lines(&report.lines()), (2, 0, 1));
}

#[test]
fn too_few_outcomes_leave_the_series_running() {
    let report = do_tcp_ping(target(), 4, 3, &vec![TrialResult::connected(9)]).unwrap();
    assert_eq!(
        report.state,
        PingState::Running { stats: RunningStats { min: 9, max: 9, sum: 9, count: 1 } }
    );
    assert_eq!(report.effects, vec![trial(9), Effect::Sleep { seconds: 4 }]);
    let report = do_tcp_ping(target(), 4, 3, &vec![]).unwrap();
    assert_eq!(
        report.state,
        PingState::Running { stats: RunningStats { min: u64::MAX, max: 0, sum: 0, count: 0 } }
    );
    assert!(report.effects.is_empty());
}

#[test]
fn session_steps_one_trial_at_a_time() {
    let mut session = PingSession::start(target(), 5, 2).unwrap();
    assert_eq!(session.config(), PingConfig { target: target(), interval: 5, count: 2 });
    assert!(session.is_running());
    assert_eq!(session.advance(TrialResult::connected(40)), vec![trial(40), Effect::Sleep { seconds: 5 }]);
    assert!(session.is_running());
    let summary = Summary { min: 40, avg: 50, max: 60 };
    assert_eq!(
        session.advance(TrialResult::connected(60)),
        vec![trial(60), Effect::Emit { line: Line::Summary { summary } }]
    );
    assert!(!session.is_running());
    assert_eq!(session.state(), PingState::Completed { summary });
    assert_eq!(session.advance(TrialResult::connected(1)), vec![]);
    assert_eq!(session.advance(TrialResult::unreachable()), vec![]);
    assert_eq!(session.state(), PingState::Completed { summary });
}

#[test]
fn aborted_session_stays_aborted() {
    let mut session = PingSession::start(target(), 5, 3).unwrap();
    session.advance(TrialResult::connected(40));
    assert_eq!(
        session.advance(TrialResult::unreachable()),
        vec![Effect::Emit { line: Line::Failure { target: target() } }]
    );
    assert_eq!(session.state(), PingState::Aborted { trial: 2 });
    assert!(!session.is_running());
    assert_eq!(session.advance(TrialResult::connected(1)), vec![]);
    assert_eq!(session.state(), PingState::Aborted { trial: 2 });
}

#[test]
fn latency_of_a_failed_trial_does_not_count() {
    assert_eq!(TrialResult::unreachable(), TrialResult { latency: 0, success: false });
    assert_eq!(TrialResult::connected(3), TrialResult { latency: 3, success: true });
    let a = do_tcp_ping(target(), 1, 2, &vec![TrialResult { latency: 77, success: false }]).unwrap();
    let b = do_tcp_ping(target(), 1, 2, &vec![TrialResult::unreachable()]).unwrap();
    assert_eq!(a.state, b.state);
    assert_eq!(a.effects, b.effects);
}

#[test]
fn configuration_errors_come_before_the_first_trial() {
    let cli = |v6: bool, host: &str, count: u32| Cli {
        v6,
        host: host.to_string(),
        port: 80,
        interval: 2,
        count,
    };
    let session = PingSession::configure(cli(false, "10.0.0.1", 4)).unwrap();
    assert_eq!(
        session.config(),
        PingConfig {
            target: Target { address: IpAddress::V4(0x0a00_0001), port: 80 },
            interval: 2,
            count: 4
        }
    );
    assert_eq!(
        session.state(),
        PingState::Running { stats: RunningStats { min: u64::MAX, max: 0, sum: 0, count: 0 } }
    );
    assert!(matches!(
        PingSession::configure(cli(false, "10.0.0.1", 0)),
        Err(ConfigError::ZeroCount)
    ));
    assert!(matches!(
        PingSession::configure(cli(true, "10.0.0.1", 0)),
        Err(ConfigError::InvalidAddress { .. })
    ));
    assert!(matches!(
        PingSession::configure(cli(false, "host", 3)),
        Err(ConfigError::InvalidAddress { .. })
    ));
}

//! The ping loop as a state machine. Each trial is one connection attempt,
//! made and timed by the caller, who hands its outcome to the machine and
//! carries out the effects that the machine answers with. The first failed
//! trial ends the series without a summary; the last successful one ends it
//! with the summary.

use crate::address::{parse_args, resolve, Cli, ConfigError, Target};
use crate::stats::{lemma_recorded_wf, RunningStats, Summary};
use vstd::prelude::*;

verus! {

/// The outcome of one connection attempt. `latency` is the time that the
/// attempt took, in nanoseconds, and counts only where `success` holds.
#[derive(Clone, Copy, Debug, PartialEq, Eq, Structural)]
pub struct TrialResult {
    pub latency: u64,
    pub success: bool,
}

/// What a series of trials is run with: the target, the seconds to wait
/// between two trials, and the number of trials.
#[derive(Clone, Copy, Debug, PartialEq, Eq, Structural)]
pub struct PingConfig {
    pub target: Target,
    pub interval: u64,
    pub count: u32,
}

/// A line of the report.
#[derive(Clone, Copy, Debug, PartialEq, Eq, Structural)]
pub enum Line {
    /// A trial succeeded and took this many nanoseconds.
    Trial { latency: u64 },
    /// No connection to the target could be opened.
    Failure { target: Target },
    /// All trials succeeded, with these statistics.
    Summary { summary: Summary },
}

/// What the caller is to do after a trial, in the order given.
#[derive(Clone, Copy, Debug, PartialEq, Eq, Structural)]
pub enum Effect {
    /// Report this line.
    Emit { line: Line },
    /// Wait this many seconds before the next trial.
    Sleep { seconds: u64 },
}

/// Where a series of trials stands.
#[derive(Clone, Copy, Debug, PartialEq, Eq, Structural)]
pub enum PingState {
    /// More trials are to come; the statistics are those of the trials done.
    Running { stats: RunningStats },
    /// The trial of this number, counted from one, failed.
    Aborted { trial: u32 },
    /// All trials succeeded.
    Completed { summary: Summary },
}

impl TrialResult {
    /// A successful attempt that took `latency` nanoseconds.
    pub fn connected(latency: u64) -> (r: TrialResult)
        ensures
            r == (TrialResult { latency, success: true }),
    {
        TrialResult { latency, success: true }
    }

    /// A failed attempt.
    pub fn unreachable() -> (r: TrialResult)
        ensures
            r == (TrialResult { latency: 0, success: false }),
    {
        TrialResult { latency: 0, success: false }
    }
}

impl PingState {
    /// The state before the first trial.
    pub open spec fn initial() -> PingState {
        PingState::Running { stats: RunningStats::empty() }
    }

    /// Whether the state can occur in a series run with `config`: while
    /// running, fewer trials are done than were asked for.
    pub open spec fn wf(self, config: PingConfig) -> bool {
        match self {
            PingState::Running { stats } => stats.wf() && stats.count < config.count,
            _ => true,
        }
    }
}

/// One step of the machine: the state after a trial with the given outcome,
/// and the effects that the trial has. A failure aborts the series with the
/// failure line alone. A success is reported and recorded; where it was the
/// last trial the summary follows, and otherwise the wait before the next
/// trial. A series that has ended stays as it is.
pub open spec fn step(config: PingConfig, state: PingState, result: TrialResult) -> (
    PingState,
    Seq<Effect>,
) {
    match state {
        PingState::Running { stats } => {
            if !result.success {
                (
                    PingState::Aborted { trial: (stats.count + 1) as u32 },
                    seq![Effect::Emit { line: Line::Failure { target: config.target } }],
                )
            } else {
                let next = stats.recorded(result.latency);
                if next.count >= config.count {
                    (
                        PingState::Completed { summary: next.spec_summary() },
                        seq![
                            Effect::Emit { line: Line::Trial { latency: result.latency } },
                            Effect::Emit { line: Line::Summary { summary: next.spec_summary() } },
                        ],
                    )
                } else {
                    (
                        PingState::Running { stats: next },
                        seq![
                            Effect::Emit { line: Line::Trial { latency: result.latency } },
                            Effect::Sleep { seconds: config.interval },
                        ],
                    )
                }
            }
        },
        _ => (state, Seq::<Effect>::empty()),
    }
}

/// The machine run from `state` over a series of outcomes: the state that it
/// ends in and all effects, in order.
pub open spec fn run(config: PingConfig, state: PingState, results: Seq<TrialResult>) -> (
    PingState,
    Seq<Effect>,
)
    decreases results.len(),
{
    if results.len() == 0 {
        (state, Seq::<Effect>::empty())
    } else {
        let before = run(config, state, results.drop_last());
        let last = step(config, before.0, results.last());
        (last.0, before.1 + last.1)
    }
}

/// A step keeps a state well formed.
pub proof fn lemma_step_wf(config: PingConfig, state: PingState, result: TrialResult)
    requires
        state.wf(config),
    ensures
        step(config, state, result).0.wf(config),
{
    match state {
        PingState::Running { stats } => {
            lemma_recorded_wf(stats, result.latency);
        },
        _ => {},
    }
}

/// A series of trials in progress.
pub struct PingSession {
    config: PingConfig,
    state: PingState,
}

impl PingSession {
    #[verifier::type_invariant]
    spec fn inv(self) -> bool {
        self.state.wf(self.config)
    }

    /// What the series is run with.
    pub closed spec fn spec_config(&self) -> PingConfig {
        self.config
    }

    /// Where the series stands.
    pub closed spec fn spec_state(&self) -> PingState {
        self.state
    }

    /// Sets up a series of `count` trials against `target`, with `interval`
    /// seconds between two trials. A series of no trial is refused.
    pub fn start(target: Target, interval: u64, count: u32) -> (r: Result<PingSession, ConfigError>)
        ensures
            count == 0 ==> r == Err::<PingSession, ConfigError>(ConfigError::ZeroCount),
            count > 0 ==> r is Ok && r.unwrap().spec_config() == (PingConfig {
                target,
                interval,
                count,
            }) && r.unwrap().spec_state() == PingState::initial(),
    {
        if count == 0 {
            return Err(ConfigError::ZeroCount);
        }
        Ok(
            PingSession {
                config: PingConfig { target, interval, count },
                state: PingState::Running { stats: RunningStats::new() },
            },
        )
    }

    /// Sets up the series that a configuration asks for. The host is resolved
    /// first; a host that is no literal of the selected family is refused, and
    /// so is a series of no trial.
    pub fn configure(cli: Cli) -> (r: Result<PingSession, ConfigError>)
        ensures
            match resolve(cli) {
                Err(e) => r == Err::<PingSession, ConfigError>(e),
                Ok(target) => if cli.count == 0 {
                    r == Err::<PingSession, ConfigError>(ConfigError::ZeroCount)
                } else {
                    r is Ok && r.unwrap().spec_config() == (PingConfig {
                        target,
                        interval: cli.interval,
                        count: cli.count,
                    }) && r.unwrap().spec_state() == PingState::initial()
                },
            },
    {
        let interval = cli.interval;
        let count = cli.count;
        match parse_args(cli) {
            Ok(target) => PingSession::start(target, interval, count),
            Err(e) => Err(e),
        }
    }

    /// What the series is run with.
    #[verifier::when_used_as_spec(spec_config)]
    pub fn config(&self) -> (r: PingConfig)
        ensures
            r == self.spec_config(),
    {
        self.config
    }

    /// Where the series stands.
    #[verifier::when_used_as_spec(spec_state)]
    pub fn state(&self) -> (r: PingState)
        ensures
            r == self.spec_state(),
    {
        self.state
    }

    /// Whether another trial is to be made.
    pub fn is_running(&self) -> (r: bool)
        ensures
            r == (self.spec_state() is Running),
    {
        match self.state {
            PingState::Running { .. } => true,
            _ => false,
        }
    }

    /// Takes the outcome of a trial and answers with its effects.
    pub fn advance(&mut self, result: TrialResult) -> (effects: Vec<Effect>)
        ensures
            final(self).spec_config() == old(self).spec_config(),
            (final(self).spec_state(), effects@) == step(
                old(self).spec_config(),
                old(self).spec_state(),
                result,
            ),
    {
        proof {
            use_type_invariant(&*self);
            lemma_step_wf(self.config, self.state, result);
        }
        let mut effects: Vec<Effect> = Vec::new();
        match self.state {
            PingState::Running { stats } => {
                if !result.success {
                    effects.push(Effect::Emit { line: Line::Failure { target: self.config.target } });
                    self.state = PingState::Aborted { trial: stats.count + 1 };
                } else {
                    let mut next = stats;
                    next.record(result.latency);
                    effects.push(Effect::Emit { line: Line::Trial { latency: result.latency } });
                    let done = if next.count >= self.config.count {
                        next.summary()
                    } else {
                        None
                    };
                    match done {
                        Some(summary) => {
                            effects.push(Effect::Emit { line: Line::Summary { summary } });
                            self.state = PingState::Completed { summary };
                        },
                        None => {
                            effects.push(Effect::Sleep { seconds: self.config.interval });
                            self.state = PingState::Running { stats: next };
                        },
                    }
                }
            },
            _ => {},
        }
        assert(effects@ =~= step(old(self).spec_config(), old(self).spec_state(), result).1);
        effects
    }
}

/// How a series ended, or where it stands, and all its effects in order.
#[derive(Debug)]
pub struct PingReport {
    pub state: PingState,
    pub effects: Vec<Effect>,
}

/// The lines among the effects, in order.
pub open spec fn emitted(effects: Seq<Effect>) -> Seq<Line>
    decreases effects.len(),
{
    if effects.len() == 0 {
        Seq::<Line>::empty()
    } else {
        match effects.last() {
            Effect::Emit { line } => emitted(effects.drop_last()).push(line),
            Effect::Sleep { .. } => emitted(effects.drop_last()),
        }
    }
}

/// The outcomes of successful trials with the given latencies.
pub open spec fn successes(latencies: Seq<u64>) -> Seq<TrialResult> {
    Seq::new(latencies.len(), |i: int| TrialResult { latency: latencies[i], success: true })
}

/// The effects of successful trials none of which is the last of its series:
/// each is reported and followed by the wait.
pub open spec fn trial_effects(config: PingConfig, latencies: Seq<u64>) -> Seq<Effect> {
    Seq::new(
        2 * latencies.len(),
        |i: int|
            if i % 2 == 0 {
                Effect::Emit { line: Line::Trial { latency: latencies[i / 2] } }
            } else {
                Effect::Sleep { seconds: config.interval }
            },
    )
}

/// The lines that report successful trials with the given latencies.
pub open spec fn trial_lines(latencies: Seq<u64>) -> Seq<Line> {
    Seq::new(latencies.len(), |i: int| Line::Trial { latency: latencies[i] })
}

impl PingReport {
    /// The lines of the report, in order.
    pub fn lines(&self) -> (r: Vec<Line>)
        ensures
            r@ == emitted(self.effects@),
    {
        let mut lines: Vec<Line> = Vec::new();
        let mut i: usize = 0;
        while i < self.effects.len()
            invariant
                i <= self.effects@.len(),
                lines@ == emitted(self.effects@.take(i as int)),
            decreases self.effects@.len() - i,
        {
            assert(self.effects@.take(i + 1).drop_last() =~= self.effects@.take(i as int));
            match self.effects[i] {
                Effect::Emit { line } => {
                    lines.push(line);
                },
                Effect::Sleep { .. } => {},
            }
            i = i + 1;
        }
        assert(self.effects@.take(i as int) =~= self.effects@);
        lines
    }
}

/// The lines of two runs of effects, one after the other, are the lines of
/// the first followed by those of the second.
pub proof fn lemma_emitted_concat(a: Seq<Effect>, b: Seq<Effect>)
    ensures
        emitted(a + b) == emitted(a) + emitted(b),
    decreases b.len(),
{
    if b.len() == 0 {
        assert(a + b =~= a);
        assert(emitted(a) + emitted(b) =~= emitted(a));
    } else {
        assert((a + b).drop_last() =~= a + b.drop_last());
        assert((a + b).last() == b.last());
        lemma_emitted_concat(a, b.drop_last());
        match b.last() {
            Effect::Emit { line } => {
                assert((emitted(a) + emitted(b.drop_last())).push(line) =~= emitted(a) + emitted(
                    b.drop_last(),
                ).push(line));
            },
            Effect::Sleep { .. } => {},
        }
    }
}

/// A series that has ended takes no notice of further outcomes.
pub proof fn lemma_run_ended(config: PingConfig, state: PingState, results: Seq<TrialResult>)
    requires
        !(state is Running),
    ensures
        run(config, state, results) == (state, Seq::<Effect>::empty()),
    decreases results.len(),
{
    if results.len() > 0 {
        lemma_run_ended(config, state, results.drop_last());
        let before = run(config, state, results.drop_last());
        assert(before.1 + step(config, before.0, results.last()).1 =~= Seq::<Effect>::empty());
    }
}

/// Running over two series of outcomes, one after the other, is running over
/// the first and then, from where that ended, over the second.
pub proof fn lemma_run_concat(
    config: PingConfig,
    state: PingState,
    a: Seq<TrialResult>,
    b: Seq<TrialResult>,
)
    ensures
        run(config, state, a + b).0 == run(config, run(config, state, a).0, b).0,
        run(config, state, a + b).1 == run(config, state, a).1 + run(
            config,
            run(config, state, a).0,
            b,
        ).1,
    decreases b.len(),
{
    let first = run(config, state, a);
    if b.len() == 0 {
        assert(a + b =~= a);
        assert(first.1 + Seq::<Effect>::empty() =~= first.1);
    } else {
        assert((a + b).drop_last() =~= a + b.drop_last());
        assert((a + b).last() == b.last());
        lemma_run_concat(config, state, a, b.drop_last());
        let mid = run(config, first.0, b.drop_last());
        let last = step(config, mid.0, b.last());
        assert((first.1 + mid.1) + last.1 =~= first.1 + (mid.1 + last.1));
    }
}

/// Runs a whole series over the outcomes of its connection attempts, given in
/// the order in which they were made. Outcomes after the end of the series are
/// not looked at; where they run out before the end, the series is left
/// running.
pub fn do_tcp_ping(target: Target, interval: u64, count: u32, results: &Vec<TrialResult>) -> (r:
    Result<PingReport, ConfigError>)
    ensures
        count == 0 ==> r == Err::<PingReport, ConfigError>(ConfigError::ZeroCount),
        count > 0 ==> r is Ok && (r.unwrap().state, r.unwrap().effects@) == run(
            PingConfig { target, interval, count },
            PingState::initial(),
            results@,
        ),
{
    let mut session = match PingSession::start(target, interval, count) {
        Ok(session) => session,
        Err(e) => {
            return Err(e);
        },
    };
    let ghost config = PingConfig { target, interval, count };
    let mut effects: Vec<Effect> = Vec::new();
    let mut i: usize = 0;
    while i < results.len() && session.is_running()
        invariant
            i <= results@.len(),
            session.spec_config() == config,
            (session.spec_state(), effects@) == run(
                config,
                PingState::initial(),
                results@.take(i as int),
            ),
        decreases results@.len() - i,
    {
        assert(results@.take(i + 1).drop_last() =~= results@.take(i as int));
        let mut more = session.advance(results[i]);
        effects.append(&mut more);
        i = i + 1;
    }
    proof {
        assert(results@.take(i as int) + results@.skip(i as int) =~= results@);
        lemma_run_concat(
            config,
            PingState::initial(),
            results@.take(i as int),
            results@.skip(i as int),
        );
        if i < results@.len() {
            lemma_run_ended(config, session.spec_state(), results@.skip(i as int));
        }
        assert(effects@ + Seq::<Effect>::empty() =~= effects@);
    }
    Ok(PingReport { state: session.state(), effects })
}

} // verus!

//! What holds of whole series of trials: of one whose trials all succeed, of
//! one of a single trial, and of one in which a trial fails.

use crate::ping::{
    emitted, lemma_emitted_concat, lemma_run_concat, lemma_run_ended, run, successes,
    trial_effects, trial_lines, Effect, Line, PingConfig, PingState, TrialResult,
};
use crate::render::{lemma_thousandths_monotonic, thousandths};
use crate::stats::{lemma_mean_between, lemma_recorded_wf, lemma_stats_of, stats_of, Summary};
use vstd::prelude::*;

verus! {

/// The waits between successful trials hold no line, and the trials are
/// reported one by one, in order.
pub proof fn lemma_emitted_trials(config: PingConfig, latencies: Seq<u64>)
    ensures
        emitted(trial_effects(config, latencies)) == trial_lines(latencies),
    decreases latencies.len(),
{
    if latencies.len() == 0 {
        assert(trial_effects(config, latencies) =~= Seq::<Effect>::empty());
        assert(trial_lines(latencies) =~= Seq::<Line>::empty());
    } else {
        let front = latencies.drop_last();
        let all = trial_effects(config, latencies);
        lemma_emitted_trials(config, front);
        assert(all.drop_last().drop_last() =~= trial_effects(config, front));
        assert(all.last() == Effect::Sleep { seconds: config.interval });
        assert(all.drop_last().last() == Effect::Emit {
            line: Line::Trial { latency: latencies.last() },
        });
        assert(emitted(all) == emitted(all.drop_last()));
        assert(emitted(all.drop_last()) == emitted(all.drop_last().drop_last()).push(
            Line::Trial { latency: latencies.last() },
        ));
        assert(trial_lines(front).push(Line::Trial { latency: latencies.last() }) =~= trial_lines(
            latencies,
        ));
    }
}

/// While fewer trials have succeeded than the series has, it is running, its
/// statistics are those of the latencies so far, and each trial was reported
/// and followed by the wait.
pub proof fn lemma_series_runs(config: PingConfig, latencies: Seq<u64>)
    requires
        latencies.len() < config.count,
    ensures
        run(config, PingState::initial(), successes(latencies)) == (
            PingState::Running { stats: stats_of(latencies) },
            trial_effects(config, latencies),
        ),
    decreases latencies.len(),
{
    let out = run(config, PingState::initial(), successes(latencies));
    if latencies.len() == 0 {
        assert(out.1 =~= trial_effects(config, latencies));
    } else {
        let front = latencies.drop_last();
        lemma_series_runs(config, front);
        lemma_stats_of(front);
        lemma_recorded_wf(stats_of(front), latencies.last());
        assert(successes(latencies).drop_last() =~= successes(front));
        assert(out.1 =~= trial_effects(config, latencies));
    }
}

/// A series whose trials all succeed ends completed. As many trial lines are
/// reported as the series has trials, in order, each but the last followed by
/// the wait, and the last by the summary line. The summary is that of all the
/// latencies, and its mean lies between its least and its greatest latency,
/// in nanoseconds and as shown in thousandths of a millisecond.
pub proof fn lemma_series_completes(config: PingConfig, latencies: Seq<u64>)
    requires
        config.count > 0,
        latencies.len() == config.count,
    ensures
        ({
            let out = run(config, PingState::initial(), successes(latencies));
            let summary = stats_of(latencies).spec_summary();
            &&& out.0 == PingState::Completed { summary }
            &&& out.1 == trial_effects(config, latencies.drop_last()) + seq![
                Effect::Emit { line: Line::Trial { latency: latencies.last() } },
                Effect::Emit { line: Line::Summary { summary } },
            ]
            &&& emitted(out.1) == trial_lines(latencies).push(Line::Summary { summary })
            &&& emitted(out.1).len() == config.count + 1
            &&& forall|k: int| 0 <= k < config.count ==> #[trigger] emitted(out.1)[k] is Trial
            &&& summary.min <= summary.avg <= summary.max
            &&& thousandths(summary.min) <= thousandths(summary.avg) <= thousandths(summary.max)
        }),
{
    let front = latencies.drop_last();
    let summary = stats_of(latencies).spec_summary();
    let end = seq![
        Effect::Emit { line: Line::Trial { latency: latencies.last() } },
        Effect::Emit { line: Line::Summary { summary } },
    ];
    lemma_series_runs(config, front);
    lemma_stats_of(front);
    lemma_stats_of(latencies);
    lemma_recorded_wf(stats_of(front), latencies.last());
    lemma_mean_between(stats_of(latencies));
    lemma_thousandths_monotonic(summary.min, summary.avg);
    lemma_thousandths_monotonic(summary.avg, summary.max);
    assert(successes(latencies).drop_last() =~= successes(front));
    lemma_emitted_trials(config, front);
    lemma_emitted_concat(trial_effects(config, front), end);
    assert(emitted(end) =~= seq![
        Line::Trial { latency: latencies.last() },
        Line::Summary { summary },
    ]) by {
        assert(end.drop_last() =~= seq![
            Effect::Emit { line: Line::Trial { latency: latencies.last() } },
        ]);
        assert(end.drop_last().drop_last() =~= Seq::<Effect>::empty());
        assert(emitted(end.drop_last().drop_last()) =~= Seq::<Line>::empty());
        assert(emitted(end.drop_last()) == emitted(end.drop_last().drop_last()).push(
            Line::Trial { latency: latencies.last() },
        ));
        assert(emitted(end) == emitted(end.drop_last()).push(Line::Summary { summary }));
    }
    assert(trial_lines(front) + seq![
        Line::Trial { latency: latencies.last() },
        Line::Summary { summary },
    ] =~= trial_lines(latencies).push(Line::Summary { summary }));
}

/// A series of one trial that succeeds reports one trial line and the summary
/// line, and the least, the mean and the greatest latency of the summary are
/// all the latency of that trial.
pub proof fn lemma_single_trial(config: PingConfig, latency: u64)
    requires
        config.count == 1,
    ensures
        ({
            let out = run(
                config,
                PingState::initial(),
                seq![TrialResult { latency, success: true }],
            );
            let summary = Summary { min: latency, avg: latency, max: latency };
            &&& out.0 == PingState::Completed { summary }
            &&& out.1 == seq![
                Effect::Emit { line: Line::Trial { latency } },
                Effect::Emit { line: Line::Summary { summary } },
            ]
            &&& emitted(out.1) == seq![Line::Trial { latency }, Line::Summary { summary }]
        }),
{
    let latencies = seq![latency];
    lemma_series_completes(config, latencies);
    assert(successes(latencies) =~= seq![TrialResult { latency, success: true }]);
    assert(latencies.drop_last() =~= Seq::<u64>::empty());
    assert(stats_of(latencies.drop_last()) == crate::stats::RunningStats::empty());
    assert(stats_of(latencies) == crate::stats::RunningStats::empty().recorded(latency));
    assert(stats_of(latencies).spec_summary() == Summary {
        min: latency,
        avg: latency,
        max: latency,
    });
    let summary = Summary { min: latency, avg: latency, max: latency };
    assert(trial_effects(config, latencies.drop_last()) + seq![
        Effect::Emit { line: Line::Trial { latency } },
        Effect::Emit { line: Line::Summary { summary } },
    ] =~= seq![
        Effect::Emit { line: Line::Trial { latency } },
        Effect::Emit { line: Line::Summary { summary } },
    ]);
    assert(trial_lines(latencies).push(Line::Summary { summary }) =~= seq![
        Line::Trial { latency },
        Line::Summary { summary },
    ]);
}

/// A series in which a trial fails ends aborted at that trial, whatever the
/// number of trials asked for and whatever outcomes are handed in after it.
/// The trials before it are reported, then the failure line naming the
/// target, and nothing else: no summary line and no wait after the failure.
pub proof fn lemma_series_aborts(
    config: PingConfig,
    latencies: Seq<u64>,
    failure: TrialResult,
    rest: Seq<TrialResult>,
)
    requires
        latencies.len() < config.count,
        !failure.success,
    ensures
        ({
            let out = run(
                config,
                PingState::initial(),
                successes(latencies).push(failure) + rest,
            );
            let notice = Line::Failure { target: config.target };
            &&& out.0 == PingState::Aborted { trial: (latencies.len() + 1) as u32 }
            &&& out.1 == trial_effects(config, latencies).push(Effect::Emit { line: notice })
            &&& emitted(out.1) == trial_lines(latencies).push(notice)
            &&& forall|k: int| 0 <= k < emitted(out.1).len() ==> !(#[trigger] emitted(out.1)[k]
                is Summary)
        }),
{
    let notice = Line::Failure { target: config.target };
    let upto = successes(latencies).push(failure);
    lemma_series_runs(config, latencies);
    lemma_stats_of(latencies);
    assert(upto.drop_last() =~= successes(latencies));
    let mid = run(config, PingState::initial(), upto);
    assert(mid.0 == PingState::Aborted { trial: (latencies.len() + 1) as u32 });
    assert(mid.1 =~= trial_effects(config, latencies).push(Effect::Emit { line: notice }));
    lemma_run_concat(config, PingState::initial(), upto, rest);
    lemma_run_ended(config, mid.0, rest);
    assert(mid.1 + Seq::<Effect>::empty() =~= mid.1);
    lemma_emitted_trials(config, latencies);
    assert(mid.1.drop_last() =~= trial_effects(config, latencies));
}

} // verus!

//! The decision: how many workers an account should run.

use crate::config::{
    resolvable, resolved_policy, AccountConfig, FleetConfig, ResolvedPolicy, StaleBehavior,
    Strategy, UtilizationConfig,
};
use crate::double::{
    exceeds, is_finite, law_order_is_of_values, lemma_magnitude, reaches, unit_count, value, zero,
    Double,
};
use crate::model::{QuotaSnapshot, QuotaWindow};
use crate::name_map::lookup;
use crate::pacing::{
    burn_rate, is_enough, is_none_too_many, law_burn_makes_up_the_change, law_no_time_needs_all,
    law_paced_count_brings_to_target, learn_rate, needed, needed_ratio, round_workers,
    whole_workers,
};
use crate::state::{law_recorded_is_found, records, sample_of, AccountState, WindowSample};
use crate::text::join3;
use crate::timestamp::{earlier_than, nanos_from, truncated, Timestamp};
use vstd::prelude::*;

verus! {

/// The target for an account's fleet, and how it came about.
#[derive(Clone, Debug)]
pub struct Decision {
    pub account: String,
    pub observed_at: Timestamp,
    pub current_workers: u32,
    pub desired_workers: u32,
    pub stale: bool,
    pub windows: Vec<WindowDecision>,
}

/// What one window asks for.
#[derive(Clone, Debug)]
pub struct WindowDecision {
    pub id: String,
    pub used_fraction: Double,
    pub target_utilization: Double,
    pub resets_at: Timestamp,
    pub desired_workers: u32,
    pub reason: String,
    pub observed_burn_per_worker_hour: Option<Double>,
}

/// No window of a fresh snapshot is switched on.
#[derive(Clone, Debug)]
pub struct NoEnabledWindows {
    pub account: String,
}

impl NoEnabledWindows {
    /// The message for a reader.
    pub fn message(&self) -> (text: String)
        ensures
            text@ == "account "@ + self.account@ + ": no enabled quota windows were observed"@,
    {
        join3("account ", self.account.as_str(), ": no enabled quota windows were observed")
    }
}

/// What one window asks for, as values.
pub struct WindowView {
    pub id: Seq<char>,
    pub used_fraction: Double,
    pub target_utilization: Double,
    pub resets_at: (i64, u32),
    pub desired_workers: u32,
    pub reason: Seq<char>,
    pub burn: Option<Double>,
}

impl View for WindowDecision {
    type V = WindowView;

    open spec fn view(&self) -> WindowView {
        WindowView {
            id: self.id@,
            used_fraction: self.used_fraction,
            target_utilization: self.target_utilization,
            resets_at: self.resets_at@,
            desired_workers: self.desired_workers,
            reason: self.reason@,
            burn: self.observed_burn_per_worker_hour,
        }
    }
}

/// A decision, as values.
pub struct DecisionView {
    pub account: Seq<char>,
    pub observed_at: (i64, u32),
    pub current_workers: u32,
    pub desired_workers: u32,
    pub stale: bool,
    pub windows: Seq<WindowView>,
}

impl View for Decision {
    type V = DecisionView;

    open spec fn view(&self) -> DecisionView {
        DecisionView {
            account: self.account@,
            observed_at: self.observed_at@,
            current_workers: self.current_workers,
            desired_workers: self.desired_workers,
            stale: self.stale,
            windows: self.windows@.map_values(|window: WindowDecision| window@),
        }
    }
}

/// The value within bounds that is nearest.
pub open spec fn clamped(value: u32, low: u32, high: u32) -> u32 {
    if value < low {
        low
    } else if value > high {
        high
    } else {
        value
    }
}

/// The count after one cycle on the way from `current` to `desired`: within the fleet's bounds,
/// and no further from `current` than one cycle may go.
pub open spec fn stepped(desired: u32, current: u32, fleet: FleetConfig) -> u32 {
    let bounded = clamped(desired, fleet.min_workers, fleet.max_workers);
    if bounded > current {
        if bounded > current + fleet.max_scale_up_per_cycle {
            (current + fleet.max_scale_up_per_cycle) as u32
        } else {
            bounded
        }
    } else {
        if bounded < current - fleet.max_scale_down_per_cycle {
            (current - fleet.max_scale_down_per_cycle) as u32
        } else {
            bounded
        }
    }
}

fn clamp_workers(value: u32, low: u32, high: u32) -> (result: u32)
    requires
        low <= high,
    ensures
        result == clamped(value, low, high),
{
    if value < low {
        low
    } else if value > high {
        high
    } else {
        value
    }
}

/// Brings a target within the fleet's bounds and one cycle's reach.
pub fn apply_step_limits(desired: u32, current: u32, config: &AccountConfig) -> (workers: u32)
    requires
        config.fleet.min_workers <= config.fleet.max_workers,
    ensures
        workers == stepped(desired, current, config.fleet),
{
    let bounded: u32 = clamp_workers(desired, config.fleet.min_workers, config.fleet.max_workers);
    if bounded > current {
        let most: u32 = current.saturating_add(config.fleet.max_scale_up_per_cycle);
        if bounded > most {
            most
        } else {
            bounded
        }
    } else {
        let least: u32 = current.saturating_sub(config.fleet.max_scale_down_per_cycle);
        if bounded < least {
            least
        } else {
            bounded
        }
    }
}

/// The age of a snapshot in whole seconds; one from the future has none.
pub open spec fn age_seconds(snapshot: QuotaSnapshot, now: (i64, u32)) -> int {
    let age = truncated(nanos_from(snapshot.observed_at@, now), 1_000_000_000);
    if age > 0 {
        age
    } else {
        0
    }
}

/// A snapshot is stale when its source says so or when it is too old.
pub open spec fn is_stale(
    config: UtilizationConfig,
    snapshot: QuotaSnapshot,
    now: (i64, u32),
) -> bool {
    !snapshot.fresh || age_seconds(snapshot, now) > config.stale_after_seconds
}

/// The target on a stale snapshot, which never lies above the current count.
pub open spec fn stale_target(config: AccountConfig, current: u32) -> u32 {
    let raw = match config.utilization.stale_behavior {
        StaleBehavior::Hold => current,
        StaleBehavior::MinWorkers => config.fleet.min_workers,
    };
    let next = stepped(raw, current, config.fleet);
    if next > current {
        current
    } else {
        next
    }
}

/// An earlier sample that a burn can be learned from: it belongs to the same reset, lies far
/// enough back, shows no more use than there is now, and workers were running.
pub open spec fn usable(
    config: UtilizationConfig,
    snapshot: QuotaSnapshot,
    window: QuotaWindow,
    sample: WindowSample,
) -> bool {
    &&& sample.resets_at@ == window.resets_at@
    &&& truncated(nanos_from(sample.observed_at@, snapshot.observed_at@), 1_000_000_000)
        >= config.minimum_sample_seconds
    &&& reaches(window.used_fraction, sample.used_fraction)
    &&& sample.workers > 0
}

/// The earlier sample of a window, if a burn can be learned from it.
pub open spec fn usable_sample(
    config: UtilizationConfig,
    snapshot: QuotaSnapshot,
    window: QuotaWindow,
    prior: Seq<(Seq<char>, WindowSample)>,
) -> Option<WindowSample> {
    match lookup(prior, window.id@) {
        Some(sample) => if usable(config, snapshot, window, sample) {
            Some(sample)
        } else {
            None
        },
        None => None,
    }
}

/// A raw count of workers, the reason for it, and the burn that it rests on.
pub struct Judgement {
    pub workers: u32,
    pub reason: Seq<char>,
    pub burn: Option<Double>,
}

/// The burn between a sample and the snapshot, if there was any: a worker's share in an hour.
pub open spec fn observed_burn(
    snapshot: QuotaSnapshot,
    window: QuotaWindow,
    sample: WindowSample,
) -> Option<Double> {
    let burn = burn_rate(
        window.used_fraction,
        sample.used_fraction,
        truncated(nanos_from(sample.observed_at@, snapshot.observed_at@), 1_000_000),
        sample.workers,
    );
    if exceeds(burn, zero()) && is_finite(burn) {
        Some(burn)
    } else {
        None
    }
}

/// The workers that bring a window from its use to its target at the reset, given a burn.
pub open spec fn workers_to_reset(
    window: QuotaWindow,
    target: Double,
    burn: Double,
    now: (i64, u32),
) -> u32 {
    whole_workers(
        needed(
            target,
            window.used_fraction,
            truncated(nanos_from(now, window.resets_at@), 1_000_000),
            burn,
        ),
    )
}

/// What a window below its target asks for under linear pacing.
pub open spec fn linear_judgement(
    config: AccountConfig,
    snapshot: QuotaSnapshot,
    window: QuotaWindow,
    prior: Seq<(Seq<char>, WindowSample)>,
    target: Double,
    current: u32,
    now: (i64, u32),
) -> Judgement {
    match usable_sample(config.utilization, snapshot, window, prior) {
        Some(sample) => match observed_burn(snapshot, window, sample) {
            Some(burn) => Judgement {
                workers: workers_to_reset(window, target, burn, now),
                reason: "paced_to_reset"@,
                burn: Some(burn),
            },
            None => Judgement { workers: current, reason: "no_observed_burn"@, burn: None },
        },
        None => if current == 0 {
            Judgement {
                workers: config.fleet.bootstrap_workers,
                reason: "bootstrap_burn_rate"@,
                burn: None,
            }
        } else {
            Judgement { workers: current, reason: "learning_burn_rate"@, burn: None }
        },
    }
}

/// What a window asks for.
pub open spec fn judgement(
    config: AccountConfig,
    snapshot: QuotaSnapshot,
    window: QuotaWindow,
    prior: Seq<(Seq<char>, WindowSample)>,
    policy: ResolvedPolicy,
    current: u32,
    now: (i64, u32),
) -> Judgement {
    if window.reached || reaches(window.used_fraction, policy.target) {
        Judgement { workers: config.fleet.min_workers, reason: "target_reached"@, burn: None }
    } else if !earlier_than(now, window.resets_at@) {
        Judgement { workers: current, reason: "reset_due"@, burn: None }
    } else {
        match policy.strategy {
            Strategy::CeilingOnly => Judgement {
                workers: config.fleet.max_workers,
                reason: "below_ceiling"@,
                burn: None,
            },
            Strategy::LinearToReset => linear_judgement(
                config,
                snapshot,
                window,
                prior,
                policy.target,
                current,
                now,
            ),
        }
    }
}

/// The decision on one window that is switched on.
pub open spec fn window_view(
    config: AccountConfig,
    snapshot: QuotaSnapshot,
    window: QuotaWindow,
    prior: Seq<(Seq<char>, WindowSample)>,
    policy: ResolvedPolicy,
    current: u32,
    now: (i64, u32),
) -> WindowView {
    let judged = judgement(config, snapshot, window, prior, policy, current, now);
    WindowView {
        id: window.id@,
        used_fraction: window.used_fraction,
        target_utilization: policy.target,
        resets_at: window.resets_at@,
        desired_workers: clamped(
            judged.workers,
            config.fleet.min_workers,
            config.fleet.max_workers,
        ),
        reason: judged.reason,
        burn: judged.burn,
    }
}

/// The decisions on those of the first `n` windows that are switched on, in their order.
pub open spec fn window_views(
    config: AccountConfig,
    snapshot: QuotaSnapshot,
    prior: Seq<(Seq<char>, WindowSample)>,
    current: u32,
    now: (i64, u32),
    n: int,
) -> Seq<WindowView>
    decreases n,
{
    if n <= 0 {
        Seq::empty()
    } else {
        let before = window_views(config, snapshot, prior, current, now, n - 1);
        let window = snapshot.windows@[n - 1];
        match resolved_policy(config.utilization, window.id@) {
            Some(policy) => before.push(
                window_view(config, snapshot, window, prior, policy, current, now),
            ),
            None => before,
        }
    }
}

/// The smallest count that any of the windows asks for; `u32::MAX` where there is none.
pub open spec fn lowest(windows: Seq<WindowView>) -> u32
    decreases windows.len(),
{
    if windows.len() == 0 {
        u32::MAX
    } else if windows.last().desired_workers < lowest(windows.drop_last()) {
        windows.last().desired_workers
    } else {
        lowest(windows.drop_last())
    }
}

/// The decision for an account: on a stale snapshot by its stale behavior, else by the smallest
/// target of the windows that are switched on. There is none where no window is.
pub open spec fn decided(
    account: Seq<char>,
    config: AccountConfig,
    snapshot: QuotaSnapshot,
    prior: Seq<(Seq<char>, WindowSample)>,
    current: u32,
    now: (i64, u32),
) -> Option<DecisionView> {
    if is_stale(config.utilization, snapshot, now) {
        Some(
            DecisionView {
                account,
                observed_at: snapshot.observed_at@,
                current_workers: current,
                desired_workers: stale_target(config, current),
                stale: true,
                windows: Seq::empty(),
            },
        )
    } else {
        let windows = window_views(
            config,
            snapshot,
            prior,
            current,
            now,
            snapshot.windows@.len() as int,
        );
        if windows.len() == 0 {
            None
        } else {
            Some(
                DecisionView {
                    account,
                    observed_at: snapshot.observed_at@,
                    current_workers: current,
                    desired_workers: stepped(lowest(windows), current, config.fleet),
                    stale: false,
                    windows,
                },
            )
        }
    }
}

/// A raw count of workers, the reason for it, and the burn that it rests on.
struct Verdict {
    workers: u32,
    reason: String,
    burn: Option<Double>,
}

spec fn verdict_view(verdict: Verdict) -> Judgement {
    Judgement { workers: verdict.workers, reason: verdict.reason@, burn: verdict.burn }
}

fn verdict(workers: u32, reason: &str) -> (verdict: Verdict)
    ensures
        verdict_view(verdict) == (Judgement { workers, reason: reason@, burn: None }),
{
    Verdict { workers, reason: reason.to_owned(), burn: None }
}

/// Whether a burn can be learned from an earlier sample.
fn is_usable(
    config: &UtilizationConfig,
    snapshot: &QuotaSnapshot,
    window: &QuotaWindow,
    sample: &WindowSample,
) -> (result: bool)
    ensures
        result == usable(*config, *snapshot, *window, *sample),
{
    let elapsed: i64 = snapshot.observed_at.seconds_since(&sample.observed_at);
    sample.resets_at.same(&window.resets_at) && elapsed >= 0 && elapsed as u64
        >= config.minimum_sample_seconds && window.used_fraction.reaches(sample.used_fraction)
        && sample.workers > 0
}

/// Learns a burn.
fn learn_burn(snapshot: &QuotaSnapshot, window: &QuotaWindow, sample: &WindowSample) -> (burn:
    Option<Double>)
    ensures
        burn == observed_burn(*snapshot, *window, *sample),
{
    let elapsed: i64 = snapshot.observed_at.milliseconds_since(&sample.observed_at);
    let burn: Double = learn_rate(
        window.used_fraction,
        sample.used_fraction,
        elapsed,
        sample.workers,
    );
    if burn.exceeds(Double { bits: 0 }) && burn.is_finite() {
        Some(burn)
    } else {
        None
    }
}

/// Paces a window.
fn pace_window(window: &QuotaWindow, target: Double, burn: Double, now: Timestamp) -> (workers: u32)
    ensures
        workers == workers_to_reset(*window, target, burn, now@),
{
    let remaining: i64 = window.resets_at.milliseconds_since(&now);
    round_workers(needed_ratio(target, window.used_fraction, remaining, burn))
}

/// Judges a window.
fn judge(
    config: &AccountConfig,
    snapshot: &QuotaSnapshot,
    window: &QuotaWindow,
    prior: &AccountState,
    policy: &ResolvedPolicy,
    current: u32,
    now: Timestamp,
) -> (result: Verdict)
    ensures
        verdict_view(result) == judgement(
            *config,
            *snapshot,
            *window,
            prior.windows@,
            *policy,
            current,
            now@,
        ),
{
    if window.reached || window.used_fraction.reaches(policy.target) {
        return verdict(config.fleet.min_workers, "target_reached");
    }
    if window.resets_at.at_or_before(&now) {
        return verdict(current, "reset_due");
    }
    match policy.strategy {
        Strategy::CeilingOnly => verdict(config.fleet.max_workers, "below_ceiling"),
        Strategy::LinearToReset => {
            if let Some(sample) = prior.windows.get(window.id.as_str()) {
                if is_usable(&config.utilization, snapshot, window, sample) {
                    return match learn_burn(snapshot, window, sample) {
                        Some(burn) => Verdict {
                            workers: pace_window(window, policy.target, burn, now),
                            reason: "paced_to_reset".to_owned(),
                            burn: Some(burn),
                        },
                        None => verdict(current, "no_observed_burn"),
                    };
                }
            }
            if current == 0 {
                verdict(config.fleet.bootstrap_workers, "bootstrap_burn_rate")
            } else {
                verdict(current, "learning_burn_rate")
            }
        },
    }
}

/// Decides how many workers an account should run.
pub fn evaluate(
    account_name: &str,
    config: &AccountConfig,
    snapshot: &QuotaSnapshot,
    prior: &AccountState,
    current_workers: u32,
    now: Timestamp,
) -> (result: Result<Decision, NoEnabledWindows>)
    requires
        config.fleet.min_workers <= config.fleet.max_workers,
        is_stale(config.utilization, *snapshot, now@) || forall|i: int|
            0 <= i < snapshot.windows@.len() ==> resolvable(
                config.utilization,
                (#[trigger] snapshot.windows@[i]).id@,
            ),
    ensures
        match result {
            Ok(decision) => decided(
                account_name@,
                *config,
                *snapshot,
                prior.windows@,
                current_workers,
                now@,
            ) == Some(decision@),
            Err(error) => error.account@ == account_name@ && decided(
                account_name@,
                *config,
                *snapshot,
                prior.windows@,
                current_workers,
                now@,
            ) is None,
        },
{
    let age: i64 = now.seconds_since(&snapshot.observed_at);
    let stale: bool = !snapshot.fresh || (age > 0 && age as u64
        > config.utilization.stale_after_seconds);
    if stale {
        let raw: u32 = match config.utilization.stale_behavior {
            StaleBehavior::Hold => current_workers,
            StaleBehavior::MinWorkers => config.fleet.min_workers,
        };
        let next: u32 = apply_step_limits(raw, current_workers, config);
        let decision: Decision = Decision {
            account: account_name.to_owned(),
            observed_at: snapshot.observed_at,
            current_workers,
            desired_workers: if next > current_workers {
                current_workers
            } else {
                next
            },
            stale: true,
            windows: Vec::new(),
        };
        assert(decision@.windows == Seq::<WindowView>::empty());
        return Ok(decision);
    }
    let mut windows: Vec<WindowDecision> = Vec::new();
    let mut raw: u32 = u32::MAX;
    let ghost mut views: Seq<WindowView> = Seq::empty();
    for i in 0..snapshot.windows.len()
        invariant
            config.fleet.min_workers <= config.fleet.max_workers,
            forall|j: int|
                0 <= j < snapshot.windows@.len() ==> resolvable(
                    config.utilization,
                    (#[trigger] snapshot.windows@[j]).id@,
                ),
            views == window_views(
                *config,
                *snapshot,
                prior.windows@,
                current_workers,
                now@,
                i as int,
            ),
            views == windows@.map_values(|window: WindowDecision| window@),
            raw == lowest(views),
    {
        let window: &QuotaWindow = &snapshot.windows[i];
        if let Some(policy) = config.utilization.policy_for(window.id.as_str()) {
            let judged: Verdict = judge(
                config,
                snapshot,
                window,
                prior,
                &policy,
                current_workers,
                now,
            );
            let desired: u32 = clamp_workers(
                judged.workers,
                config.fleet.min_workers,
                config.fleet.max_workers,
            );
            let decision: WindowDecision = WindowDecision {
                id: window.id.clone(),
                used_fraction: window.used_fraction,
                target_utilization: policy.target,
                resets_at: window.resets_at,
                desired_workers: desired,
                reason: judged.reason,
                observed_burn_per_worker_hour: judged.burn,
            };
            let ghost view = decision@;
            proof {
                assert(views.push(view).drop_last() == views);
                views = views.push(view);
            }
            windows.push(decision);
            assert(windows@.map_values(|window: WindowDecision| window@) == views);
            if desired < raw {
                raw = desired;
            }
        }
    }
    if windows.len() == 0 {
        return Err(NoEnabledWindows { account: account_name.to_owned() });
    }
    Ok(
        Decision {
            account: account_name.to_owned(),
            observed_at: snapshot.observed_at,
            current_workers,
            desired_workers: apply_step_limits(raw, current_workers, config),
            stale: false,
            windows,
        },
    )
}

proof fn lemma_lowest(windows: Seq<WindowView>)
    requires
        windows.len() > 0,
    ensures
        forall|i: int|
            0 <= i < windows.len() ==> lowest(windows) <= (#[trigger] windows[i]).desired_workers,
        exists|i: int|
            0 <= i < windows.len() && lowest(windows) == (#[trigger] windows[i]).desired_workers,
    decreases windows.len(),
{
    let before = windows.drop_last();
    let last = windows.len() - 1;
    if before.len() == 0 {
        assert(lowest(before) == u32::MAX);
        assert(lowest(windows) == windows[last].desired_workers);
    } else {
        lemma_lowest(before);
        let k = choose|k: int|
            0 <= k < before.len() && lowest(before) == (#[trigger] before[k]).desired_workers;
        assert(windows[k] == before[k]);
        assert forall|i: int| 0 <= i < windows.len() implies lowest(windows) <= (
        #[trigger] windows[i]).desired_workers by {
            if i < last {
                assert(windows[i] == before[i]);
            }
        }
        if windows.last().desired_workers < lowest(before) {
            assert(lowest(windows) == windows[last].desired_workers);
        }
    }
}

/// The smallest target wins: on a fresh snapshot the decision is what the step limits leave of a
/// count that one of the windows asks for and that none of them asks to stay below.
pub proof fn law_smallest_window_wins(
    account: Seq<char>,
    config: AccountConfig,
    snapshot: QuotaSnapshot,
    prior: Seq<(Seq<char>, WindowSample)>,
    current: u32,
    now: (i64, u32),
)
    requires
        !is_stale(config.utilization, snapshot, now),
    ensures
        decided(account, config, snapshot, prior, current, now) matches Some(decision) ==> {
            &&& decision.desired_workers == stepped(
                lowest(decision.windows),
                current,
                config.fleet,
            )
            &&& forall|i: int|
                0 <= i < decision.windows.len() ==> lowest(decision.windows) <= (
                #[trigger] decision.windows[i]).desired_workers
            &&& exists|i: int|
                0 <= i < decision.windows.len() && lowest(decision.windows) == (
                #[trigger] decision.windows[i]).desired_workers
        },
{
    let windows = window_views(
        config,
        snapshot,
        prior,
        current,
        now,
        snapshot.windows@.len() as int,
    );
    if windows.len() > 0 {
        lemma_lowest(windows);
    }
}

/// A stale snapshot never scales up, whatever the fleet's bounds are and whatever its windows
/// show.
pub proof fn law_stale_never_scales_up(
    account: Seq<char>,
    config: AccountConfig,
    snapshot: QuotaSnapshot,
    prior: Seq<(Seq<char>, WindowSample)>,
    current: u32,
    now: (i64, u32),
)
    requires
        is_stale(config.utilization, snapshot, now),
    ensures
        decided(account, config, snapshot, prior, current, now) matches Some(decision)
            && decision.stale && decision.desired_workers <= current,
{
}

/// With the behavior to hold, a stale snapshot keeps a count that is not above the fleet's bound.
pub proof fn law_stale_holds(
    account: Seq<char>,
    config: AccountConfig,
    snapshot: QuotaSnapshot,
    prior: Seq<(Seq<char>, WindowSample)>,
    current: u32,
    now: (i64, u32),
)
    requires
        is_stale(config.utilization, snapshot, now),
        config.utilization.stale_behavior == StaleBehavior::Hold,
        current <= config.fleet.max_workers,
    ensures
        decided(account, config, snapshot, prior, current, now) matches Some(decision)
            && decision.desired_workers == current,
{
}

/// No decision leaves the reach of one cycle, and one that starts within the fleet's bounds ends
/// within them.
pub proof fn law_step_limits_and_bounds(
    account: Seq<char>,
    config: AccountConfig,
    snapshot: QuotaSnapshot,
    prior: Seq<(Seq<char>, WindowSample)>,
    current: u32,
    now: (i64, u32),
)
    requires
        config.fleet.min_workers <= config.fleet.max_workers,
    ensures
        decided(account, config, snapshot, prior, current, now) matches Some(decision) ==> {
            &&& decision.desired_workers <= current + config.fleet.max_scale_up_per_cycle
            &&& decision.desired_workers >= current - config.fleet.max_scale_down_per_cycle
            &&& config.fleet.min_workers <= current <= config.fleet.max_workers
                ==> config.fleet.min_workers <= decision.desired_workers
                <= config.fleet.max_workers
        },
{
}

proof fn lemma_same_views(
    config: AccountConfig,
    a: QuotaSnapshot,
    b: QuotaSnapshot,
    prior: Seq<(Seq<char>, WindowSample)>,
    current: u32,
    now: (i64, u32),
    n: int,
)
    requires
        a.observed_at == b.observed_at,
        n <= a.windows@.len(),
        n <= b.windows@.len(),
        forall|i: int| 0 <= i < n ==> #[trigger] a.windows@[i] == b.windows@[i],
    ensures
        window_views(config, a, prior, current, now, n) == window_views(
            config,
            b,
            prior,
            current,
            now,
            n,
        ),
    decreases n,
{
    if n > 0 {
        lemma_same_views(config, a, b, prior, current, now, n - 1);
        assert(a.windows@[n - 1] == b.windows@[n - 1]);
    }
}

/// One more window can only lower the target: every window that is switched on constrains it.
pub proof fn law_more_windows_never_raise(
    account: Seq<char>,
    config: AccountConfig,
    fewer: QuotaSnapshot,
    more: QuotaSnapshot,
    extra: QuotaWindow,
    prior: Seq<(Seq<char>, WindowSample)>,
    current: u32,
    now: (i64, u32),
)
    requires
        more.observed_at == fewer.observed_at,
        more.fresh == fewer.fresh,
        more.windows@ == fewer.windows@.push(extra),
        config.fleet.min_workers <= config.fleet.max_workers,
    ensures
        decided(account, config, fewer, prior, current, now) matches Some(before) ==> decided(
            account,
            config,
            more,
            prior,
            current,
            now,
        ) matches Some(after) && after.desired_workers <= before.desired_workers,
{
    let n = fewer.windows@.len() as int;
    lemma_same_views(config, fewer, more, prior, current, now, n);
    let before = window_views(config, fewer, prior, current, now, n);
    let after = window_views(config, more, prior, current, now, n + 1);
    if after.len() > before.len() {
        assert(after.drop_last() == before);
    }
}

/// A window that is switched off has no effect on the decision.
pub proof fn law_disabled_window_has_no_effect(
    account: Seq<char>,
    config: AccountConfig,
    fewer: QuotaSnapshot,
    more: QuotaSnapshot,
    extra: QuotaWindow,
    prior: Seq<(Seq<char>, WindowSample)>,
    current: u32,
    now: (i64, u32),
)
    requires
        more.observed_at == fewer.observed_at,
        more.fresh == fewer.fresh,
        more.windows@ == fewer.windows@.push(extra),
        resolved_policy(config.utilization, extra.id@) is None,
    ensures
        decided(account, config, more, prior, current, now) == decided(
            account,
            config,
            fewer,
            prior,
            current,
            now,
        ),
{
    let n = fewer.windows@.len() as int;
    lemma_same_views(config, fewer, more, prior, current, now, n);
}

proof fn lemma_same_views_of_configs(
    a: AccountConfig,
    b: AccountConfig,
    snapshot: QuotaSnapshot,
    prior: Seq<(Seq<char>, WindowSample)>,
    current: u32,
    now: (i64, u32),
    n: int,
)
    requires
        a.utilization == b.utilization,
        a.fleet.min_workers == b.fleet.min_workers,
        a.fleet.max_workers == b.fleet.max_workers,
        a.fleet.bootstrap_workers == b.fleet.bootstrap_workers,
    ensures
        window_views(a, snapshot, prior, current, now, n) == window_views(
            b,
            snapshot,
            prior,
            current,
            now,
            n,
        ),
    decreases n,
{
    if n > 0 {
        lemma_same_views_of_configs(a, b, snapshot, prior, current, now, n - 1);
    }
}

/// Where the quota comes from, and how workers are counted and steered, has no bearing on the
/// decision.
pub proof fn law_decision_knows_no_provider(
    account: Seq<char>,
    a: AccountConfig,
    b: AccountConfig,
    snapshot: QuotaSnapshot,
    prior: Seq<(Seq<char>, WindowSample)>,
    current: u32,
    now: (i64, u32),
)
    requires
        a.utilization == b.utilization,
        a.fleet.min_workers == b.fleet.min_workers,
        a.fleet.max_workers == b.fleet.max_workers,
        a.fleet.bootstrap_workers == b.fleet.bootstrap_workers,
        a.fleet.max_scale_up_per_cycle == b.fleet.max_scale_up_per_cycle,
        a.fleet.max_scale_down_per_cycle == b.fleet.max_scale_down_per_cycle,
    ensures
        decided(account, a, snapshot, prior, current, now) == decided(
            account,
            b,
            snapshot,
            prior,
            current,
            now,
        ),
{
    lemma_same_views_of_configs(
        a,
        b,
        snapshot,
        prior,
        current,
        now,
        snapshot.windows@.len() as int,
    );
}

/// A reset generation is never compared with another one: a sample of another reset counts as
/// none at all.
pub proof fn law_generations_do_not_mix(
    config: AccountConfig,
    snapshot: QuotaSnapshot,
    window: QuotaWindow,
    prior: Seq<(Seq<char>, WindowSample)>,
    empty: Seq<(Seq<char>, WindowSample)>,
    policy: ResolvedPolicy,
    current: u32,
    now: (i64, u32),
)
    requires
        lookup(prior, window.id@) matches Some(sample) ==> sample.resets_at@
            != window.resets_at@,
        lookup(empty, window.id@) is None,
    ensures
        window_view(config, snapshot, window, prior, policy, current, now) == window_view(
            config,
            snapshot,
            window,
            empty,
            policy,
            current,
            now,
        ),
{
}

/// Without an earlier sample a window below its target holds the current count, or starts the
/// bootstrap workers where none are running.
pub proof fn law_first_observation_holds(
    config: AccountConfig,
    snapshot: QuotaSnapshot,
    window: QuotaWindow,
    prior: Seq<(Seq<char>, WindowSample)>,
    policy: ResolvedPolicy,
    current: u32,
    now: (i64, u32),
)
    requires
        lookup(prior, window.id@) is None,
        policy.strategy == Strategy::LinearToReset,
        !window.reached,
        !reaches(window.used_fraction, policy.target),
    ensures
        current > 0 ==> judgement(
            config,
            snapshot,
            window,
            prior,
            policy,
            current,
            now,
        ).workers == current,
        current == 0 && earlier_than(now, window.resets_at@) ==> judgement(
            config,
            snapshot,
            window,
            prior,
            policy,
            current,
            now,
        ).workers == config.fleet.bootstrap_workers,
{
}

/// No observed burn is not free capacity: where use has not moved since the sample, the count is
/// held.
pub proof fn law_zero_delta_holds(
    config: AccountConfig,
    snapshot: QuotaSnapshot,
    window: QuotaWindow,
    prior: Seq<(Seq<char>, WindowSample)>,
    policy: ResolvedPolicy,
    current: u32,
    now: (i64, u32),
)
    requires
        lookup(prior, window.id@) matches Some(sample) && sample.used_fraction
            == window.used_fraction,
        policy.strategy == Strategy::LinearToReset,
        current > 0,
        !window.reached,
        !reaches(window.used_fraction, policy.target),
    ensures
        judgement(config, snapshot, window, prior, policy, current, now).workers == current,
{
}

/// A window at or above its target asks for no more than the least count, whatever was seen
/// before.
pub proof fn law_target_reached_drains(
    config: AccountConfig,
    snapshot: QuotaSnapshot,
    window: QuotaWindow,
    prior: Seq<(Seq<char>, WindowSample)>,
    policy: ResolvedPolicy,
    current: u32,
    now: (i64, u32),
)
    requires
        window.reached || reaches(window.used_fraction, policy.target),
        config.fleet.min_workers <= config.fleet.max_workers,
    ensures
        window_view(config, snapshot, window, prior, policy, current, now).desired_workers
            == config.fleet.min_workers,
{
}

/// The second observation of a reset paces: what the first one recorded is the sample that the
/// burn is learned from, over the workers that were recorded with it. Where there was no burn, the
/// count is held.
pub proof fn law_second_observation_paces(
    config: AccountConfig,
    first: QuotaSnapshot,
    i: int,
    workers: u32,
    target: u32,
    prior: AccountState,
    second: QuotaSnapshot,
    window: QuotaWindow,
    policy: ResolvedPolicy,
    current: u32,
    now: (i64, u32),
)
    requires
        records(prior, first, workers, target),
        0 <= i < first.windows@.len(),
        forall|j: int|
            i < j < first.windows@.len() ==> (#[trigger] first.windows@[j]).id@
                != first.windows@[i].id@,
        window.id@ == first.windows@[i].id@,
        window.resets_at@ == first.windows@[i].resets_at@,
        reaches(window.used_fraction, first.windows@[i].used_fraction),
        workers > 0,
        truncated(nanos_from(first.observed_at@, second.observed_at@), 1_000_000_000)
            >= config.utilization.minimum_sample_seconds,
        policy.strategy == Strategy::LinearToReset,
        !window.reached,
        !reaches(window.used_fraction, policy.target),
        earlier_than(now, window.resets_at@),
    ensures
        judgement(config, second, window, prior.windows@, policy, current, now) == (
        match observed_burn(second, window, sample_of(first, first.windows@[i], workers)) {
            Some(burn) => Judgement {
                workers: workers_to_reset(window, policy.target, burn, now),
                reason: "paced_to_reset"@,
                burn: Some(burn),
            },
            None => Judgement { workers: current, reason: "no_observed_burn"@, burn: None },
        }),
{
    law_recorded_is_found(prior, first, workers, target, i);
}

/// A decision says what it was made of. It is stale exactly when the source says so or when the
/// snapshot is older, in whole seconds, than it may be; and there is none only where a snapshot
/// that is not stale shows no window that is switched on.
pub proof fn law_decision_says_what_it_is_of(
    account: Seq<char>,
    config: AccountConfig,
    snapshot: QuotaSnapshot,
    prior: Seq<(Seq<char>, WindowSample)>,
    current: u32,
    now: (i64, u32),
)
    ensures
        ({
            let too_old = nanos_from(snapshot.observed_at@, now) >= (
            config.utilization.stale_after_seconds + 1) * 1_000_000_000;
            match decided(account, config, snapshot, prior, current, now) {
                Some(decision) => {
                    &&& decision.account == account
                    &&& decision.observed_at == snapshot.observed_at@
                    &&& decision.current_workers == current
                    &&& decision.stale == (!snapshot.fresh || too_old)
                    &&& decision.stale ==> decision.windows.len() == 0
                    &&& !decision.stale ==> decision.windows.len() > 0
                },
                None => snapshot.fresh && !too_old && forall|k: int|
                    0 <= k < snapshot.windows@.len() ==> resolved_policy(
                        config.utilization,
                        (#[trigger] snapshot.windows@[k]).id@,
                    ) is None,
            }
        }),
{
    let n = snapshot.windows@.len() as int;
    assert forall|k: int|
        0 <= k < n && window_views(config, snapshot, prior, current, now, n).len()
            == 0 implies resolved_policy(
        config.utilization,
        (#[trigger] snapshot.windows@[k]).id@,
    ) is None by {
        if resolved_policy(config.utilization, snapshot.windows@[k].id@) is Some {
            lemma_window_counts(config, snapshot, prior, current, now, n, k);
        }
    }
}

proof fn lemma_window_counts(
    config: AccountConfig,
    snapshot: QuotaSnapshot,
    prior: Seq<(Seq<char>, WindowSample)>,
    current: u32,
    now: (i64, u32),
    n: int,
    k: int,
)
    requires
        0 <= k < n <= snapshot.windows@.len(),
        resolved_policy(config.utilization, snapshot.windows@[k].id@) is Some,
    ensures
        window_views(config, snapshot, prior, current, now, n).contains(
            window_view(
                config,
                snapshot,
                snapshot.windows@[k],
                prior,
                resolved_policy(config.utilization, snapshot.windows@[k].id@)->0,
                current,
                now,
            ),
        ),
    decreases n,
{
    let view = window_view(
        config,
        snapshot,
        snapshot.windows@[k],
        prior,
        resolved_policy(config.utilization, snapshot.windows@[k].id@)->0,
        current,
        now,
    );
    let before = window_views(config, snapshot, prior, current, now, n - 1);
    let all = window_views(config, snapshot, prior, current, now, n);
    if k == n - 1 {
        assert(all[before.len() as int] == view);
    } else {
        lemma_window_counts(config, snapshot, prior, current, now, n - 1, k);
        let j = choose|j: int| 0 <= j < before.len() && before[j] == view;
        assert(all[j] == view);
    }
}

proof fn lemma_window_is_shown(
    config: AccountConfig,
    snapshot: QuotaSnapshot,
    prior: Seq<(Seq<char>, WindowSample)>,
    current: u32,
    now: (i64, u32),
    n: int,
    j: int,
) -> (k: int)
    requires
        n <= snapshot.windows@.len(),
        0 <= j < window_views(config, snapshot, prior, current, now, n).len(),
    ensures
        0 <= k < n,
        resolved_policy(config.utilization, snapshot.windows@[k].id@) is Some,
        window_views(config, snapshot, prior, current, now, n)[j] == window_view(
            config,
            snapshot,
            snapshot.windows@[k],
            prior,
            resolved_policy(config.utilization, snapshot.windows@[k].id@)->0,
            current,
            now,
        ),
    decreases n,
{
    let before = window_views(config, snapshot, prior, current, now, n - 1);
    if j == before.len() {
        n - 1
    } else {
        lemma_window_is_shown(config, snapshot, prior, current, now, n - 1, j)
    }
}

/// Every window of a fresh snapshot that is switched on is judged, and no other: each has its view
/// among those of the decision, under its id and with its use, its reset and its policy's target.
pub proof fn law_every_enabled_window_is_judged(
    account: Seq<char>,
    config: AccountConfig,
    snapshot: QuotaSnapshot,
    prior: Seq<(Seq<char>, WindowSample)>,
    current: u32,
    now: (i64, u32),
)
    ensures
        decided(account, config, snapshot, prior, current, now) matches Some(decision)
            ==> decision.stale || {
            &&& forall|k: int|
                0 <= k < snapshot.windows@.len() && resolved_policy(
                    config.utilization,
                    (#[trigger] snapshot.windows@[k]).id@,
                ) is Some ==> decision.windows.contains(
                    window_view(
                        config,
                        snapshot,
                        snapshot.windows@[k],
                        prior,
                        resolved_policy(config.utilization, snapshot.windows@[k].id@)->0,
                        current,
                        now,
                    ),
                )
            &&& forall|j: int|
                0 <= j < decision.windows.len() ==> exists|k: int|
                    0 <= k < snapshot.windows@.len() && is_view_of(
                        #[trigger] decision.windows[j],
                        config,
                        #[trigger] snapshot.windows@[k],
                    )
        },
{
    let n = snapshot.windows@.len() as int;
    let views = window_views(config, snapshot, prior, current, now, n);
    if !is_stale(config.utilization, snapshot, now) {
        assert forall|k: int|
            0 <= k < n && resolved_policy(
                config.utilization,
                (#[trigger] snapshot.windows@[k]).id@,
            ) is Some implies views.contains(
            window_view(
                config,
                snapshot,
                snapshot.windows@[k],
                prior,
                resolved_policy(config.utilization, snapshot.windows@[k].id@)->0,
                current,
                now,
            ),
        ) by {
            lemma_window_counts(config, snapshot, prior, current, now, n, k);
        }
        assert forall|j: int| 0 <= j < views.len() implies exists|k: int|
            0 <= k < n && is_view_of(
                #[trigger] views[j],
                config,
                #[trigger] snapshot.windows@[k],
            ) by {
            let k = lemma_window_is_shown(config, snapshot, prior, current, now, n, j);
            assert(is_view_of(views[j], config, snapshot.windows@[k]));
        }
    }
}

/// A view of a window that is switched on: its id, its use and its reset, and its policy's target.
pub open spec fn is_view_of(view: WindowView, config: AccountConfig, window: QuotaWindow) -> bool {
    &&& view.id == window.id@
    &&& view.used_fraction == window.used_fraction
    &&& view.resets_at == window.resets_at@
    &&& resolved_policy(config.utilization, window.id@) matches Some(policy)
        && view.target_utilization == policy.target
}

/// A decision goes as far as it may: where the smallest target, within the fleet's bounds, is in
/// reach of one cycle, the decision is that target; where it is not, it is one full step towards
/// it.
pub proof fn law_decision_goes_as_far_as_it_may(
    account: Seq<char>,
    config: AccountConfig,
    snapshot: QuotaSnapshot,
    prior: Seq<(Seq<char>, WindowSample)>,
    current: u32,
    now: (i64, u32),
    goal: int,
)
    requires
        config.fleet.min_workers <= config.fleet.max_workers,
        decided(account, config, snapshot, prior, current, now) matches Some(decision)
            && !decision.stale && forall|j: int|
            0 <= j < decision.windows.len() ==> goal <= (
            #[trigger] decision.windows[j]).desired_workers,
        decided(account, config, snapshot, prior, current, now) matches Some(decision) && exists|
            j: int,
        |
            0 <= j < decision.windows.len() && goal == (
            #[trigger] decision.windows[j]).desired_workers,
    ensures
        config.fleet.min_workers <= goal <= config.fleet.max_workers,
        decided(account, config, snapshot, prior, current, now) matches Some(decision) && {
            &&& current - config.fleet.max_scale_down_per_cycle <= goal <= current
                + config.fleet.max_scale_up_per_cycle ==> decision.desired_workers == goal
            &&& goal > current + config.fleet.max_scale_up_per_cycle ==> decision.desired_workers
                == current + config.fleet.max_scale_up_per_cycle
            &&& goal < current - config.fleet.max_scale_down_per_cycle ==> decision.desired_workers
                == current - config.fleet.max_scale_down_per_cycle
        },
{
    let n = snapshot.windows@.len() as int;
    let views = window_views(config, snapshot, prior, current, now, n);
    lemma_lowest(views);
    let j = choose|j: int|
        0 <= j < views.len() && goal == (#[trigger] views[j]).desired_workers;
    let k = lemma_window_is_shown(config, snapshot, prior, current, now, n, j);
}

/// On a stale snapshot, the behavior to drain goes one step down, but no further than the least
/// count; and the behavior to hold keeps the count, but for one above the fleet's bound, which it
/// brings a step nearer to the bound.
pub proof fn law_stale_behaviors(
    account: Seq<char>,
    config: AccountConfig,
    snapshot: QuotaSnapshot,
    prior: Seq<(Seq<char>, WindowSample)>,
    current: u32,
    now: (i64, u32),
)
    requires
        decided(account, config, snapshot, prior, current, now) matches Some(decision)
            && decision.stale,
        config.fleet.min_workers <= config.fleet.max_workers,
    ensures
        decided(account, config, snapshot, prior, current, now) matches Some(decision) && ({
            let down = current - config.fleet.max_scale_down_per_cycle;
            let desired = decision.desired_workers;
            match config.utilization.stale_behavior {
                StaleBehavior::Hold => if current <= config.fleet.max_workers {
                    desired == current
                } else {
                    desired == (if down > config.fleet.max_workers {
                        down
                    } else {
                        config.fleet.max_workers as int
                    })
                },
                StaleBehavior::MinWorkers => if current <= config.fleet.min_workers {
                    desired == current
                } else {
                    desired == (if down > config.fleet.min_workers {
                        down
                    } else {
                        config.fleet.min_workers as int
                    })
                },
            }
        }),
{
}

/// A count that is brought within a fleet's bounds.
pub open spec fn within_bounds(count: int, fleet: FleetConfig) -> int {
    if count < fleet.min_workers {
        fleet.min_workers as int
    } else if count > fleet.max_workers {
        fleet.max_workers as int
    } else {
        count
    }
}

/// What a window asks for where no burn comes into it: the least count once its target is reached,
/// the current one once its reset is due, and otherwise, for a ceiling, the largest.
pub proof fn law_windows_without_pacing(
    config: AccountConfig,
    snapshot: QuotaSnapshot,
    window: QuotaWindow,
    prior: Seq<(Seq<char>, WindowSample)>,
    policy: ResolvedPolicy,
    current: u32,
    now: (i64, u32),
)
    requires
        config.fleet.min_workers <= config.fleet.max_workers,
        is_finite(window.used_fraction),
        is_finite(policy.target),
    ensures
        ({
            let view = window_view(config, snapshot, window, prior, policy, current, now);
            let reached = window.reached || value(window.used_fraction) >= value(policy.target);
            let due = !earlier_than(now, window.resets_at@);
            &&& reached ==> view.desired_workers == config.fleet.min_workers && view.reason
                == "target_reached"@ && view.burn is None
            &&& !reached && due ==> view.desired_workers == within_bounds(
                current as int,
                config.fleet,
            ) && view.reason == "reset_due"@ && view.burn is None
            &&& !reached && !due && policy.strategy == Strategy::CeilingOnly
                ==> view.desired_workers == config.fleet.max_workers && view.reason
                == "below_ceiling"@ && view.burn is None
        }),
{
    law_order_is_of_values(window.used_fraction, policy.target);
}

/// Pacing rests on a sample of the same reset, taken long enough before, at no more use than now
/// and with workers running. Without one, the count is held, or the bootstrap workers are started
/// where none are running.
pub proof fn law_no_pacing_without_a_sample(
    config: AccountConfig,
    snapshot: QuotaSnapshot,
    window: QuotaWindow,
    prior: Seq<(Seq<char>, WindowSample)>,
    policy: ResolvedPolicy,
    current: u32,
    now: (i64, u32),
)
    requires
        config.fleet.min_workers <= config.fleet.max_workers,
        policy.strategy == Strategy::LinearToReset,
        is_finite(window.used_fraction),
        is_finite(policy.target),
        !window.reached,
        value(window.used_fraction) < value(policy.target),
        earlier_than(now, window.resets_at@),
        lookup(prior, window.id@) matches Some(sample) ==> is_finite(sample.used_fraction) && (
        sample.resets_at@ != window.resets_at@ || nanos_from(
            sample.observed_at@,
            snapshot.observed_at@,
        ) < config.utilization.minimum_sample_seconds * 1_000_000_000 && (
        config.utilization.minimum_sample_seconds > 0 || nanos_from(
            sample.observed_at@,
            snapshot.observed_at@,
        ) <= -1_000_000_000) || value(window.used_fraction) < value(sample.used_fraction)
            || sample.workers == 0),
    ensures
        ({
            let view = window_view(config, snapshot, window, prior, policy, current, now);
            &&& view.burn is None
            &&& current > 0 ==> view.reason == "learning_burn_rate"@ && view.desired_workers
                == within_bounds(current as int, config.fleet)
            &&& current == 0 ==> view.reason == "bootstrap_burn_rate"@ && view.desired_workers
                == within_bounds(config.fleet.bootstrap_workers as int, config.fleet)
        }),
{
    law_order_is_of_values(window.used_fraction, policy.target);
    if let Some(sample) = lookup(prior, window.id@) {
        law_order_is_of_values(window.used_fraction, sample.used_fraction);
        let nanos = nanos_from(sample.observed_at@, snapshot.observed_at@);
        assert(truncated(nanos, 1_000_000_000) >= config.utilization.minimum_sample_seconds ==> (
        nanos >= config.utilization.minimum_sample_seconds * 1_000_000_000 || (
        config.utilization.minimum_sample_seconds == 0 && nanos > -1_000_000_000)));
    }
}

/// A rate makes up a change: over `elapsed` milliseconds, by so many workers, it comes to the change
/// in use, up to rounding.
pub open spec fn makes_up(burn: int, workers: int, elapsed: int, change: int) -> bool {
    let slack = 3_600_000 * change + 0x8_0000_0000_0000 * (workers * elapsed);
    -slack <= 0x2_0000_0000_0000 * (burn * workers * elapsed - 3_600_000 * change) <= slack
}

/// The burn that is learned from a sample is what makes up the change in use since then: it is
/// found whenever that is more than a few units, and a worker's burn per hour, over the time between
/// the two observations and the sample's workers, comes to the change.
pub proof fn law_learned_burn_makes_up_the_change(
    snapshot: QuotaSnapshot,
    window: QuotaWindow,
    sample: WindowSample,
    elapsed: int,
)
    requires
        is_finite(window.used_fraction),
        is_finite(sample.used_fraction),
        0 < value(window.used_fraction) - value(sample.used_fraction) <= unit_count(),
        elapsed == nanos_from(sample.observed_at@, snapshot.observed_at@) / 1_000_000,
        0 < elapsed < 0x1_0000_0000_0000_0000,
        sample.workers > 0,
    ensures
        observed_burn(snapshot, window, sample) matches Some(burn) ==> is_finite(burn) && value(burn)
            > 0 && makes_up(
            value(burn),
            sample.workers as int,
            elapsed,
            value(window.used_fraction) - value(sample.used_fraction),
        ),
        3_600_000 * (value(window.used_fraction) - value(sample.used_fraction)) >= 8 * (
        sample.workers * elapsed) ==> observed_burn(snapshot, window, sample) is Some,
{
    let used = window.used_fraction;
    let before = sample.used_fraction;
    law_burn_makes_up_the_change(used, before, elapsed, sample.workers);
    let burn = burn_rate(used, before, elapsed, sample.workers);
    law_order_is_of_values(burn, zero());
    assert(value(zero()) == 0) by {
        lemma_magnitude(0);
    }
    if value(burn) == 0 {
        let w = sample.workers as int;
        let b = value(burn);
        assert(b * w * elapsed == 0) by (nonlinear_arith)
            requires
                b == 0,
        ;
        let s = w * elapsed;
        assert(s > 0) by (nonlinear_arith)
            requires
                s == w * elapsed,
                w > 0,
                elapsed > 0,
        ;
    }
}

/// Under linear pacing, a window with a usable sample and a burn is paced: the decision shows the
/// burn that makes up the change since the sample, and asks for the count of workers that brings
/// the window to its target at its reset, within the fleet's bounds.
pub proof fn law_linear_paces_to_reset(
    config: AccountConfig,
    snapshot: QuotaSnapshot,
    window: QuotaWindow,
    prior: Seq<(Seq<char>, WindowSample)>,
    policy: ResolvedPolicy,
    current: u32,
    now: (i64, u32),
    sample: WindowSample,
    elapsed: int,
    remaining: int,
)
    requires
        config.fleet.min_workers <= config.fleet.max_workers,
        policy.strategy == Strategy::LinearToReset,
        is_finite(window.used_fraction),
        is_finite(policy.target),
        !window.reached,
        0 < value(policy.target) - value(window.used_fraction) <= unit_count(),
        earlier_than(now, window.resets_at@),
        lookup(prior, window.id@) == Some(sample),
        sample.resets_at@ == window.resets_at@,
        is_finite(sample.used_fraction),
        0 < value(window.used_fraction) - value(sample.used_fraction) <= unit_count(),
        sample.workers > 0,
        elapsed == nanos_from(sample.observed_at@, snapshot.observed_at@) / 1_000_000,
        0 < elapsed < 0x1_0000_0000_0000_0000,
        nanos_from(sample.observed_at@, snapshot.observed_at@)
            >= config.utilization.minimum_sample_seconds * 1_000_000_000,
        3_600_000 * (value(window.used_fraction) - value(sample.used_fraction)) >= 8 * (
        sample.workers * elapsed),
        remaining == nanos_from(now, window.resets_at@) / 1_000_000,
        0 < remaining < 0x1_0000_0000_0000_0000,
    ensures
        ({
            let view = window_view(config, snapshot, window, prior, policy, current, now);
            &&& view.reason == "paced_to_reset"@
            &&& view.burn matches Some(burn) && is_finite(burn) && value(burn) > 0 && makes_up(
                value(burn),
                sample.workers as int,
                elapsed,
                value(window.used_fraction) - value(sample.used_fraction),
            ) && exists|workers: u32|
                view.desired_workers == #[trigger] within_bounds(workers as int, config.fleet) && (
                workers < u32::MAX ==> is_enough(
                    workers as int,
                    value(policy.target) - value(window.used_fraction),
                    remaining,
                    value(burn),
                )) && is_none_too_many(
                    workers as int,
                    value(policy.target) - value(window.used_fraction),
                    remaining,
                    value(burn),
                )
        }),
{
    law_order_is_of_values(window.used_fraction, policy.target);
    law_order_is_of_values(window.used_fraction, sample.used_fraction);
    law_learned_burn_makes_up_the_change(snapshot, window, sample, elapsed);
    let burn = observed_burn(snapshot, window, sample)->0;
    law_paced_count_brings_to_target(policy.target, window.used_fraction, remaining, burn);
    let workers = workers_to_reset(window, policy.target, burn, now);
    let view = window_view(config, snapshot, window, prior, policy, current, now);
    assert(usable(config.utilization, snapshot, window, sample));
    assert(view.desired_workers == within_bounds(workers as int, config.fleet));
}

/// A window with a usable sample and a burn whose reset is less than a millisecond away has no time
/// left to pace: it asks for the most that the fleet may run.
pub proof fn law_no_time_left_asks_for_all(
    config: AccountConfig,
    snapshot: QuotaSnapshot,
    window: QuotaWindow,
    prior: Seq<(Seq<char>, WindowSample)>,
    policy: ResolvedPolicy,
    current: u32,
    now: (i64, u32),
    sample: WindowSample,
)
    requires
        config.fleet.min_workers <= config.fleet.max_workers,
        policy.strategy == Strategy::LinearToReset,
        is_finite(window.used_fraction),
        is_finite(policy.target),
        !window.reached,
        0 < value(policy.target) - value(window.used_fraction) <= unit_count(),
        earlier_than(now, window.resets_at@),
        lookup(prior, window.id@) == Some(sample),
        usable(config.utilization, snapshot, window, sample),
        observed_burn(snapshot, window, sample) is Some,
        0 <= nanos_from(now, window.resets_at@) < 1_000_000,
    ensures
        ({
            let view = window_view(config, snapshot, window, prior, policy, current, now);
            view.desired_workers == config.fleet.max_workers && view.reason == "paced_to_reset"@
        }),
{
    law_order_is_of_values(window.used_fraction, policy.target);
    let burn = observed_burn(snapshot, window, sample)->0;
    lemma_magnitude(0);
    law_order_is_of_values(burn, zero());
    assert(truncated(nanos_from(now, window.resets_at@), 1_000_000) == 0);
    law_no_time_needs_all(policy.target, window.used_fraction, burn);
}

/// Use that has not moved since a usable sample shows no burn, and the count is held within the
/// fleet's bounds.
pub proof fn law_no_burn_holds(
    config: AccountConfig,
    snapshot: QuotaSnapshot,
    window: QuotaWindow,
    prior: Seq<(Seq<char>, WindowSample)>,
    policy: ResolvedPolicy,
    current: u32,
    now: (i64, u32),
    sample: WindowSample,
)
    requires
        config.fleet.min_workers <= config.fleet.max_workers,
        policy.strategy == Strategy::LinearToReset,
        is_finite(window.used_fraction),
        is_finite(policy.target),
        !window.reached,
        value(window.used_fraction) < value(policy.target),
        earlier_than(now, window.resets_at@),
        lookup(prior, window.id@) == Some(sample),
        sample.resets_at@ == window.resets_at@,
        is_finite(sample.used_fraction),
        value(sample.used_fraction) == value(window.used_fraction),
        sample.workers > 0,
        nanos_from(sample.observed_at@, snapshot.observed_at@)
            >= config.utilization.minimum_sample_seconds * 1_000_000_000,
    ensures
        ({
            let view = window_view(config, snapshot, window, prior, policy, current, now);
            view.desired_workers == within_bounds(current as int, config.fleet) && view.reason
                == "no_observed_burn"@ && view.burn is None
        }),
{
    law_order_is_of_values(window.used_fraction, policy.target);
    law_order_is_of_values(window.used_fraction, sample.used_fraction);
    assert(usable(config.utilization, snapshot, window, sample));
    assert(observed_burn(snapshot, window, sample) is None);
}

/// The windows of a decision stand in the order of the snapshot: one more window at its end that is
/// switched on adds its view at the end, and leaves the views before it as they are.
pub proof fn law_windows_keep_their_order(
    account: Seq<char>,
    config: AccountConfig,
    fewer: QuotaSnapshot,
    more: QuotaSnapshot,
    extra: QuotaWindow,
    prior: Seq<(Seq<char>, WindowSample)>,
    current: u32,
    now: (i64, u32),
)
    requires
        more.observed_at == fewer.observed_at,
        more.fresh == fewer.fresh,
        more.windows@ == fewer.windows@.push(extra),
        resolved_policy(config.utilization, extra.id@) is Some,
        decided(account, config, more, prior, current, now) matches Some(after) && !after.stale,
    ensures
        decided(account, config, more, prior, current, now) matches Some(after)
            && after.windows.drop_last() == (match decided(
            account,
            config,
            fewer,
            prior,
            current,
            now,
        ) {
            Some(before) => before.windows,
            None => Seq::empty(),
        }) && is_view_of(after.windows.last(), config, extra),
{
    let n = fewer.windows@.len() as int;
    lemma_same_views(config, fewer, more, prior, current, now, n);
    let before = window_views(config, fewer, prior, current, now, n);
    let after = window_views(config, more, prior, current, now, n + 1);
    assert(after.drop_last() == before);
}

} // verus!

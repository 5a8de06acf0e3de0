use subscription_governor::config::{
    AccountConfig, ActuatorConfig, FleetConfig, SourceConfig, StaleBehavior, Strategy,
    UtilizationConfig, WindowPolicy, WorkerObserverConfig,
};
use subscription_governor::controller::{apply_step_limits, evaluate, Decision};
use subscription_governor::double::Double;
use subscription_governor::model::{QuotaSnapshot, QuotaWindow};
use subscription_governor::name_map::NameMap;
use subscription_governor::pacing::{learn_rate, needed_ratio, round_workers};
use subscription_governor::paths::FilePath;
use subscription_governor::state::{AccountState, WindowSample};
use subscription_governor::timestamp::Timestamp;

const HOUR: i64 = 3600;
const DAY: i64 = 86_400;

fn share(value: f64) -> Double {
    Double { bits: value.to_bits() }
}

fn now() -> Timestamp {
    let now = chrono::Utc::now();
    Timestamp::new(now.timestamp(), now.timestamp_subsec_nanos()).unwrap()
}

fn after(instant: Timestamp, seconds: i64) -> Timestamp {
    Timestamp::new(instant.seconds() + seconds, instant.nanos()).unwrap()
}

fn account() -> AccountConfig {
    AccountConfig {
        source: SourceConfig::NormalizedFile { path: FilePath::Written("x".into()) },
        fleet: FleetConfig {
            min_workers: 0,
            max_workers: 10,
            bootstrap_workers: 1,
            max_scale_up_per_cycle: 10,
            max_scale_down_per_cycle: 10,
            observer: WorkerObserverConfig::Static { workers: 4 },
            actuator: ActuatorConfig::Off,
        },
        utilization: UtilizationConfig {
            target_utilization: Some(share(0.9)),
            reserve_fraction: None,
            strategy: Strategy::LinearToReset,
            stale_after_seconds: 900,
            stale_behavior: StaleBehavior::Hold,
            minimum_sample_seconds: 60,
            windows: NameMap::new(),
        },
    }
}

fn window(id: &str, used: f64, resets_at: Timestamp) -> QuotaWindow {
    QuotaWindow {
        id: id.into(),
        used_fraction: share(used),
        resets_at,
        duration_minutes: None,
        reached: false,
    }
}

fn fresh(observed_at: Timestamp, windows: Vec<QuotaWindow>) -> QuotaSnapshot {
    QuotaSnapshot { observed_at, fresh: true, windows }
}

fn sampled(id: &str, sample: WindowSample) -> AccountState {
    let mut prior = AccountState::default();
    prior.windows.insert(id.into(), sample);
    prior
}

fn decide(
    config: &AccountConfig,
    snapshot: &QuotaSnapshot,
    prior: &AccountState,
    current: u32,
    now: Timestamp,
) -> Decision {
    evaluate("test", config, snapshot, prior, current, now).unwrap()
}

#[test]
fn chooses_most_conservative_window() {
    let now = now();
    let snapshot = QuotaSnapshot {
        observed_at: now,
        fresh: true,
        windows: vec![
            QuotaWindow {
                id: "five_hour".into(),
                used_fraction: share(0.2),
                resets_at: after(now, 2 * HOUR),
                duration_minutes: Some(300),
                reached: false,
            },
            QuotaWindow {
                id: "weekly".into(),
                used_fraction: share(0.9),
                resets_at: after(now, 2 * DAY),
                duration_minutes: Some(10080),
                reached: false,
            },
        ],
    };
    let decision =
        evaluate("test", &account(), &snapshot, &AccountState::default(), 4, now).unwrap();
    assert_eq!(decision.desired_workers, 0);
}

#[test]
fn learns_per_worker_burn_and_paces() {
    let now = now();
    let reset = after(now, 8 * HOUR);
    let snapshot = fresh(now, vec![window("weekly", 0.5, reset)]);
    let prior = sampled(
        "weekly",
        WindowSample {
            observed_at: after(now, -HOUR),
            used_fraction: share(0.4),
            resets_at: reset,
            workers: 2,
        },
    );
    let decision = evaluate("test", &account(), &snapshot, &prior, 2, now).unwrap();
    assert_eq!(decision.desired_workers, 1);
    assert_eq!(decision.windows[0].reason, "paced_to_reset");
}

#[test]
fn stale_data_never_scales_up() {
    let now = now();
    let snapshot = fresh(after(now, -HOUR), vec![window("weekly", 0.1, after(now, 2 * DAY))]);
    let decision =
        evaluate("test", &account(), &snapshot, &AccountState::default(), 3, now).unwrap();
    assert_eq!(decision.desired_workers, 3);
    assert!(decision.stale);
}

#[test]
fn bootstraps_an_empty_fleet_to_learn_burn() {
    let now = now();
    let snapshot = fresh(now, vec![window("weekly", 0.1, after(now, 2 * DAY))]);
    let decision =
        evaluate("test", &account(), &snapshot, &AccountState::default(), 0, now).unwrap();
    assert_eq!(decision.desired_workers, 1);
    assert_eq!(decision.windows[0].reason, "bootstrap_burn_rate");
}

#[test]
fn the_learned_burn_is_what_was_measured() {
    let now = now();
    let reset = after(now, 8 * HOUR);
    let prior = sampled(
        "weekly",
        WindowSample {
            observed_at: after(now, -HOUR),
            used_fraction: share(0.4),
            resets_at: reset,
            workers: 2,
        },
    );
    let decision = decide(&account(), &fresh(now, vec![window("weekly", 0.5, reset)]), &prior, 2, now);
    assert_eq!(
        decision.windows[0].observed_burn_per_worker_hour,
        Some(share((0.5 - 0.4) / 1.0 / 2.0))
    );
}

#[test]
fn a_stale_snapshot_holds_below_the_minimum() {
    let now = now();
    let mut config = account();
    config.fleet.min_workers = 2;
    let snapshot = QuotaSnapshot {
        observed_at: now,
        fresh: false,
        windows: vec![window("weekly", 0.1, after(now, DAY))],
    };
    let decision = decide(&config, &snapshot, &AccountState::default(), 1, now);
    assert!(decision.stale);
    assert_eq!(decision.desired_workers, 1);
    assert_eq!(decision.windows.len(), 0);
    config.utilization.stale_behavior = StaleBehavior::MinWorkers;
    assert_eq!(decide(&config, &snapshot, &AccountState::default(), 0, now).desired_workers, 0);
}

#[test]
fn a_stale_snapshot_drains_by_steps() {
    let now = now();
    let mut config = account();
    config.utilization.stale_behavior = StaleBehavior::MinWorkers;
    config.fleet.max_scale_down_per_cycle = 2;
    let snapshot = fresh(after(now, -901), vec![window("weekly", 0.1, after(now, DAY))]);
    assert_eq!(decide(&config, &snapshot, &AccountState::default(), 7, now).desired_workers, 5);
}

#[test]
fn a_snapshot_of_the_allowed_age_is_fresh() {
    let now = now();
    let snapshot = fresh(after(now, -900), vec![window("weekly", 0.1, after(now, DAY))]);
    let decision = decide(&account(), &snapshot, &AccountState::default(), 7, now);
    assert!(!decision.stale);
    assert_eq!(decision.windows[0].reason, "learning_burn_rate");
    let future = fresh(after(now, HOUR), vec![window("weekly", 0.1, after(now, DAY))]);
    assert!(!decide(&account(), &future, &AccountState::default(), 7, now).stale);
}

#[test]
fn an_account_without_enabled_windows_is_an_error() {
    let now = now();
    let mut config = account();
    let off = WindowPolicy { enabled: Some(false), ..WindowPolicy::default() };
    config.utilization.windows.insert("weekly".into(), off);
    let snapshot = fresh(now, vec![window("weekly", 0.1, after(now, DAY))]);
    let error =
        evaluate("test", &config, &snapshot, &AccountState::default(), 1, now).unwrap_err();
    assert_eq!(error.message(), "account test: no enabled quota windows were observed");
}

#[test]
fn a_disabled_window_changes_nothing() {
    let now = now();
    let mut config = account();
    let off = WindowPolicy { enabled: Some(false), ..WindowPolicy::default() };
    config.utilization.windows.insert("weekly".into(), off);
    let snapshot = fresh(
        now,
        vec![window("five_hour", 0.2, after(now, HOUR)), window("weekly", 1.0, after(now, DAY))],
    );
    let decision = decide(&config, &snapshot, &AccountState::default(), 4, now);
    assert_eq!(decision.desired_workers, 4);
    assert_eq!(decision.windows.len(), 1);
}

#[test]
fn one_more_window_only_lowers_the_target() {
    let now = now();
    let one = fresh(now, vec![window("five_hour", 0.2, after(now, HOUR))]);
    let two = fresh(
        now,
        vec![window("five_hour", 0.2, after(now, HOUR)), window("weekly", 0.95, after(now, DAY))],
    );
    let prior = AccountState::default();
    assert_eq!(decide(&account(), &one, &prior, 4, now).desired_workers, 4);
    assert_eq!(decide(&account(), &two, &prior, 4, now).desired_workers, 0);
}

#[test]
fn a_due_reset_holds() {
    let now = now();
    let decision =
        decide(&account(), &fresh(now, vec![window("weekly", 0.1, now)]), &AccountState::default(), 4, now);
    assert_eq!(decision.windows[0].reason, "reset_due");
    assert_eq!(decision.desired_workers, 4);
}

#[test]
fn a_reached_window_drains_even_below_its_target() {
    let now = now();
    let mut reached = window("weekly", 0.1, after(now, DAY));
    reached.reached = true;
    let decision =
        decide(&account(), &fresh(now, vec![reached]), &AccountState::default(), 4, now);
    assert_eq!(decision.windows[0].reason, "target_reached");
    assert_eq!(decision.desired_workers, 0);
}

#[test]
fn ceiling_only_runs_at_the_maximum() {
    let now = now();
    let mut config = account();
    config.utilization.strategy = Strategy::CeilingOnly;
    let prior = AccountState::default();
    let below = fresh(now, vec![window("weekly", 0.899, after(now, DAY))]);
    let decision = decide(&config, &below, &prior, 4, now);
    assert_eq!(decision.windows[0].reason, "below_ceiling");
    assert_eq!(decision.desired_workers, 10);
    let at = fresh(now, vec![window("weekly", 0.9, after(now, DAY))]);
    assert_eq!(decide(&config, &at, &prior, 4, now).desired_workers, 0);
}

#[test]
fn zero_delta_is_a_hold() {
    let now = now();
    let reset = after(now, DAY);
    let prior = sampled(
        "weekly",
        WindowSample {
            observed_at: after(now, -HOUR),
            used_fraction: share(0.3),
            resets_at: reset,
            workers: 2,
        },
    );
    let decision = decide(&account(), &fresh(now, vec![window("weekly", 0.3, reset)]), &prior, 5, now);
    assert_eq!(decision.windows[0].reason, "no_observed_burn");
    assert_eq!(decision.desired_workers, 5);
}

#[test]
fn a_sample_that_cannot_be_used_counts_as_none() {
    let now = now();
    let reset = after(now, DAY);
    let good = WindowSample {
        observed_at: after(now, -HOUR),
        used_fraction: share(0.1),
        resets_at: reset,
        workers: 2,
    };
    let snapshot = fresh(now, vec![window("weekly", 0.3, reset)]);
    let reason = |sample: WindowSample| {
        decide(&account(), &snapshot, &sampled("weekly", sample), 5, now).windows[0].reason.clone()
    };
    assert_eq!(reason(good), "paced_to_reset");
    assert_eq!(reason(WindowSample { resets_at: after(reset, 1), ..good }), "learning_burn_rate");
    assert_eq!(reason(WindowSample { observed_at: after(now, -59), ..good }), "learning_burn_rate");
    assert_eq!(reason(WindowSample { observed_at: after(now, -60), ..good }), "paced_to_reset");
    assert_eq!(reason(WindowSample { used_fraction: share(0.31), ..good }), "learning_burn_rate");
    assert_eq!(reason(WindowSample { workers: 0, ..good }), "learning_burn_rate");
}

#[test]
fn a_huge_minimum_sample_age_is_never_met() {
    let now = now();
    let reset = after(now, DAY);
    let mut config = account();
    config.utilization.minimum_sample_seconds = u64::MAX;
    let prior = sampled(
        "weekly",
        WindowSample {
            observed_at: after(now, -HOUR),
            used_fraction: share(0.1),
            resets_at: reset,
            workers: 2,
        },
    );
    let decision = decide(&config, &fresh(now, vec![window("weekly", 0.3, reset)]), &prior, 5, now);
    assert_eq!(decision.windows[0].reason, "learning_burn_rate");
}

#[test]
fn step_limits_bound_every_decision() {
    let mut config = account();
    config.fleet.min_workers = 2;
    config.fleet.max_scale_up_per_cycle = 3;
    config.fleet.max_scale_down_per_cycle = 1;
    assert_eq!(apply_step_limits(9, 4, &config), 7);
    assert_eq!(apply_step_limits(5, 4, &config), 5);
    assert_eq!(apply_step_limits(0, 4, &config), 3);
    assert_eq!(apply_step_limits(0, 2, &config), 2);
    assert_eq!(apply_step_limits(0, 0, &config), 2);
    assert_eq!(apply_step_limits(u32::MAX, u32::MAX, &config), u32::MAX - 1);
}

#[test]
fn the_decision_does_not_know_the_provider() {
    let now = now();
    let mut other = account();
    other.source = SourceConfig::CodexAppServer { executable: FilePath::Written("codex".into()), timeout_seconds: 1 };
    other.fleet.observer = WorkerObserverConfig::File { path: FilePath::Written("n".into()) };
    other.fleet.actuator = ActuatorConfig::TargetFile { path: FilePath::Written("t".into()) };
    let snapshot = fresh(now, vec![window("weekly", 0.1, after(now, DAY))]);
    let prior = AccountState::default();
    assert_eq!(
        decide(&account(), &snapshot, &prior, 3, now).desired_workers,
        decide(&other, &snapshot, &prior, 3, now).desired_workers
    );
}

#[test]
fn a_use_just_below_the_target_has_not_reached_it() {
    let now = now();
    let mut config = account();
    config.utilization.strategy = Strategy::CeilingOnly;
    let below = f64::from_bits(0.9f64.to_bits() - 1);
    let snapshot = fresh(now, vec![window("weekly", below, after(now, DAY))]);
    let decision = decide(&config, &snapshot, &AccountState::default(), 4, now);
    assert_eq!(decision.windows[0].reason, "below_ceiling");
    let reset = after(now, DAY);
    let prior = sampled(
        "weekly",
        WindowSample {
            observed_at: after(now, -HOUR),
            used_fraction: share(f64::from_bits(0.3f64.to_bits() - 1)),
            resets_at: reset,
            workers: 2,
        },
    );
    let decision = decide(&account(), &fresh(now, vec![window("weekly", 0.3, reset)]), &prior, 5, now);
    assert_eq!(decision.windows[0].reason, "paced_to_reset");
    assert_eq!(decision.desired_workers, 10);
}

#[test]
fn a_stale_count_at_the_bound_is_held() {
    let now = now();
    let snapshot = fresh(after(now, -HOUR), vec![window("weekly", 0.1, after(now, DAY))]);
    let mut config = account();
    config.fleet.min_workers = 3;
    for current in [0, 2, 3, 10] {
        assert_eq!(
            decide(&config, &snapshot, &AccountState::default(), current, now).desired_workers,
            current
        );
    }
    assert_eq!(decide(&config, &snapshot, &AccountState::default(), 11, now).desired_workers, 10);
}

#[test]
fn pacing_rounds_up_but_for_a_billionth() {
    for (ratio, workers) in [
        (4.0, 4),
        (4.1, 5),
        (4.0000000009, 4),
        (4.0000000011, 5),
        (3.9999999999, 4),
        (0.5, 1),
        (0.0, 0),
        (1e-10, 0),
        (1e-9, 1),
        (5e-324, 0),
        (-0.0, 0),
        (-3.5, 0),
        (f64::NAN, 0),
        (f64::INFINITY, u32::MAX),
        (f64::NEG_INFINITY, 0),
        (4294967294.5, u32::MAX),
        (4294967294.0, u32::MAX - 1),
        (1e300, u32::MAX),
        (9007199254740993.0, u32::MAX),
    ] {
        assert_eq!(round_workers(share(ratio)), workers, "{ratio}");
        let rounded: f64 = ratio.round();
        let expected =
            if (ratio - rounded).abs() < 1e-9 { rounded } else { ratio.ceil() }.max(0.0) as u32;
        assert_eq!(workers, expected, "{ratio}");
    }
}

#[test]
fn rates_are_those_of_floating_point() {
    let mut seed: u64 = 7;
    let mut next = || {
        seed = seed.wrapping_mul(6364136223846793005).wrapping_add(1442695040888963407);
        seed >> 11
    };
    for _ in 0..2000 {
        let used = next() as f64 / (1u64 << 53) as f64;
        let before = next() as f64 / (1u64 << 53) as f64;
        let elapsed = (next() % 20_000_000) as i64 - 5;
        let workers = (next() % 9) as u32;
        let hours = elapsed as f64 / 3_600_000.0;
        let rate = (used - before) / hours / f64::from(workers);
        let learned = learn_rate(share(used), share(before), elapsed, workers);
        assert!(learned == share(rate) || rate.is_nan());
        let ratio = (before - used) / hours / rate;
        let found = needed_ratio(share(before), share(used), elapsed, share(rate));
        assert!(found == share(ratio) || ratio.is_nan());
    }
}

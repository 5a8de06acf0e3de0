use subscription_governor::config::{
    AccountConfig, ActuatorConfig, Config, FleetConfig, SourceConfig, StaleBehavior, Strategy,
    UtilizationConfig, WorkerObserverConfig,
};
use subscription_governor::cycle::{after_cycle, commit, plan_account, AfterCycle, Round};
use subscription_governor::fleet::{
    actuation, observation, parse_worker_count, render_argv, target_text, Actuation, CountError,
    Observation,
};
use subscription_governor::double::Double;
use subscription_governor::model::{QuotaSnapshot, QuotaWindow};
use subscription_governor::name_map::NameMap;
use subscription_governor::paths::FilePath;
use subscription_governor::state::{
    credentials_temporary_name, lock_path, temporary_name, AccountState, State,
};
use subscription_governor::timestamp::Timestamp;

fn share(value: f64) -> Double {
    Double { bits: value.to_bits() }
}

fn at(seconds: i64) -> Timestamp {
    Timestamp::new(1_800_000_000 + seconds, 0).unwrap()
}

fn account(actuator: ActuatorConfig) -> AccountConfig {
    AccountConfig {
        source: SourceConfig::NormalizedFile { path: FilePath::Written("x".into()) },
        fleet: FleetConfig {
            min_workers: 0,
            max_workers: 10,
            bootstrap_workers: 1,
            max_scale_up_per_cycle: 10,
            max_scale_down_per_cycle: 10,
            observer: WorkerObserverConfig::Static { workers: 4 },
            actuator,
        },
        utilization: UtilizationConfig {
            target_utilization: Some(share(0.9)),
            reserve_fraction: None,
            strategy: Strategy::LinearToReset,
            stale_after_seconds: 900,
            stale_behavior: StaleBehavior::Hold,
            minimum_sample_seconds: 60,
            windows: NameMap::new(),
        },
    }
}

fn file() -> ActuatorConfig {
    ActuatorConfig::TargetFile { path: FilePath::Written("target".into()) }
}

fn snapshot(seconds: i64, used: f64) -> QuotaSnapshot {
    QuotaSnapshot {
        observed_at: at(seconds),
        fresh: true,
        windows: vec![QuotaWindow {
            id: "weekly".into(),
            used_fraction: share(used),
            resets_at: at(36_000),
            duration_minutes: None,
            reached: false,
        }],
    }
}

#[test]
fn two_rounds_learn_and_pace() {
    let mut state = State::default();
    let config = account(file());
    let first = snapshot(0, 0.4);
    let plan = plan_account("a", &config, &state, &first, 2, at(0), false).unwrap();
    assert_eq!(plan.decision.windows[0].reason, "learning_burn_rate");
    assert!(!plan.actuated);
    assert_eq!(plan.sample_workers, 2);
    commit(&mut state, "a", &plan, &first);
    // A tenth in an hour by two workers; four tenths are left for nine hours.
    let second = snapshot(3600, 0.5);
    let plan = plan_account("a", &config, &state, &second, 2, at(3600), false).unwrap();
    assert_eq!(plan.decision.windows[0].reason, "paced_to_reset");
    assert_eq!(plan.decision.desired_workers, 1);
    assert!(plan.actuated);
    assert_eq!(plan.sample_workers, 1);
    commit(&mut state, "a", &plan, &second);
    let kept = state.accounts.get("a").unwrap();
    assert_eq!(kept.last_target, Some(1));
    let sample = kept.windows.get("weekly").unwrap();
    assert_eq!(sample.workers, 1);
    assert_eq!(sample.used_fraction, share(0.5));
    assert_eq!(sample.observed_at, at(3600));
    assert_eq!(sample.resets_at, at(36_000));
}

#[test]
fn observing_tells_no_fleet() {
    let state = State::default();
    let full = snapshot(0, 0.95);
    let plan = plan_account("a", &account(file()), &state, &full, 3, at(0), true).unwrap();
    assert_eq!(plan.decision.desired_workers, 0);
    assert!(!plan.actuated);
    assert_eq!(plan.sample_workers, 3);
    let off = account(ActuatorConfig::Off);
    assert!(!plan_account("a", &off, &state, &full, 3, at(0), false).unwrap().actuated);
    assert!(plan_account("a", &account(file()), &state, &full, 3, at(0), false).unwrap().actuated);
    assert!(!plan_account("a", &account(file()), &state, &full, 0, at(0), false).unwrap().actuated);
}

#[test]
fn a_stale_round_keeps_the_samples() {
    let mut state = State::default();
    let config = account(file());
    let first = snapshot(0, 0.4);
    let plan = plan_account("a", &config, &state, &first, 2, at(0), false).unwrap();
    commit(&mut state, "a", &plan, &first);
    let mut late = snapshot(10, 0.6);
    late.fresh = false;
    let plan = plan_account("a", &config, &state, &late, 5, at(10), false).unwrap();
    assert!(plan.decision.stale);
    assert!(plan.decision.desired_workers <= 5);
    commit(&mut state, "a", &plan, &late);
    let kept = state.accounts.get("a").unwrap();
    assert_eq!(kept.last_target, Some(5));
    assert_eq!(kept.windows.get("weekly").unwrap().used_fraction, share(0.4));
}

#[test]
fn accounts_do_not_touch_each_other() {
    let mut state = State::default();
    let config = account(file());
    for name in ["b", "a", "c"] {
        let shown = snapshot(0, 0.4);
        let plan = plan_account(name, &config, &state, &shown, 2, at(0), false).unwrap();
        commit(&mut state, name, &plan, &shown);
    }
    let shown = snapshot(60, 0.6);
    let plan = plan_account("b", &config, &state, &shown, 2, at(60), false).unwrap();
    commit(&mut state, "b", &plan, &shown);
    assert_eq!(state.accounts.len(), 3);
    assert_eq!(state.accounts.name_at(0), "a");
    let used = |name: &str| {
        state.accounts.get(name).unwrap().windows.get("weekly").unwrap().used_fraction
    };
    assert_eq!((used("a"), used("b"), used("c")), (share(0.4), share(0.6), share(0.4)));
}

#[test]
fn a_round_without_windows_fails() {
    let mut none = snapshot(0, 0.4);
    none.windows.clear();
    let error = plan_account("a", &account(file()), &State::default(), &none, 2, at(0), false)
        .unwrap_err();
    assert_eq!(error.message(), "account a: no enabled quota windows were observed");
}

#[test]
fn recording_drops_what_is_not_shown() {
    let mut state = AccountState::default();
    state.record(&snapshot(0, 0.4), 2, 3);
    let mut other = snapshot(1, 0.7);
    other.windows[0].id = "five_hour".into();
    let mut again = other.windows[0].clone();
    again.used_fraction = share(0.8);
    other.windows.push(again);
    state.record(&other, 4, 5);
    assert_eq!(state.last_target, Some(5));
    assert_eq!(state.windows.len(), 1);
    assert!(state.windows.get("weekly").is_none());
    assert_eq!(state.windows.get("five_hour").unwrap().used_fraction, share(0.8));
}

#[test]
fn a_round_goes_on_after_a_failure() {
    let mut accounts = NameMap::new();
    for name in ["a", "b", "c"] {
        accounts.insert(name.to_string(), account(file()));
    }
    let config = Config { version: 1, poll_interval_seconds: 1, state_path: None, accounts };
    let mut state = State::default();
    let mut round = Round::begin();
    let mut turns = Vec::new();
    while let Some(index) = round.account(&config) {
        let name = config.accounts.name_at(index).clone();
        let shown = snapshot(0, 0.4);
        let outcome = if name == "b" {
            None
        } else {
            let account = config.accounts.value_at(index);
            let plan = plan_account(&name, account, &state, &shown, 2, at(0), false).unwrap();
            Some((plan, shown))
        };
        round.settle(&config, &mut state, &outcome);
        turns.push(name);
    }
    assert_eq!(turns, vec!["a", "b", "c"]);
    assert_eq!(round.failures, 1);
    assert!(state.accounts.get("a").is_some());
    assert!(state.accounts.get("b").is_none());
    assert!(state.accounts.get("c").is_some());
    round.settle(&config, &mut state, &None);
    assert_eq!((round.next, round.failures), (3, 1));
}

#[test]
fn what_follows_a_round() {
    assert!(matches!(after_cycle(false, 3), AfterCycle::Sleep));
    assert!(matches!(after_cycle(true, 0), AfterCycle::Stop));
    match after_cycle(true, 2) {
        AfterCycle::Fail(text) => assert_eq!(text, "2 account(s) failed"),
        other => panic!("{other:?}"),
    }
}

#[test]
fn worker_counts_are_read() {
    assert_eq!(parse_worker_count(" 7\n"), Ok(7));
    assert_eq!(parse_worker_count("+7"), Ok(7));
    assert_eq!(parse_worker_count("007"), Ok(7));
    assert_eq!(parse_worker_count("4294967295"), Ok(u32::MAX));
    assert_eq!(parse_worker_count("{\"current_workers\": 12}\n"), Ok(12));
    assert_eq!(parse_worker_count("4294967296"), Err(CountError::Omitted));
    assert_eq!(parse_worker_count("-1"), Err(CountError::Omitted));
    assert_eq!(parse_worker_count("{\"current_workers\": 4294967296}"), Err(CountError::Omitted));
    assert_eq!(parse_worker_count("{\"workers\": 1}"), Err(CountError::Omitted));
    assert_eq!(parse_worker_count(""), Err(CountError::Unreadable));
    assert_eq!(parse_worker_count("seven"), Err(CountError::Unreadable));
    assert_eq!(
        CountError::Unreadable.message(),
        "worker observer must print an integer or {\"current_workers\": N}"
    );
    assert_eq!(
        CountError::Omitted.message(),
        "worker observer JSON omitted a valid current_workers"
    );
}

#[test]
fn a_target_file_reads_back() {
    for desired in [0, 9, 10, 4_294_967_295] {
        assert_eq!(target_text(desired), format!("{desired}\n"));
        assert_eq!(parse_worker_count(&target_text(desired)), Ok(desired));
    }
}

#[test]
fn every_placeholder_is_replaced() {
    let argv = vec![
        "scale".to_string(),
        "{desired_workers}/{desired_workers}".to_string(),
        "{desired_{desired_workers}workers}".to_string(),
    ];
    assert_eq!(render_argv(&argv, 12), vec!["scale", "12/12", "{desired_12workers}"]);
}

#[test]
fn fleets_are_observed_and_told() {
    let mut fleet = account(file()).fleet;
    assert!(matches!(observation(&fleet), Observation::Known(4)));
    match actuation(&fleet, 3) {
        Actuation::WriteFile { path, text } => {
            assert!(matches!(path, FilePath::Written(name) if name == "target"));
            assert_eq!(text, "3\n");
        }
        other => panic!("{other:?}"),
    }
    fleet.observer = WorkerObserverConfig::File { path: FilePath::Written("count".into()) };
    fleet.actuator = ActuatorConfig::Command { argv: vec!["go".into(), "{desired_workers}".into()] };
    match observation(&fleet) {
        Observation::ReadFile(FilePath::Written(path)) => assert_eq!(path, "count"),
        other => panic!("{other:?}"),
    }
    match actuation(&fleet, 3) {
        Actuation::Run(argv) => assert_eq!(argv, vec!["go", "3"]),
        other => panic!("{other:?}"),
    }
    fleet.observer = WorkerObserverConfig::Command { argv: vec!["n".into()] };
    fleet.actuator = ActuatorConfig::Off;
    match observation(&fleet) {
        Observation::Run(argv) => assert_eq!(argv, vec!["n"]),
        other => panic!("{other:?}"),
    }
    assert!(matches!(actuation(&fleet, 3), Actuation::Nothing));
}

#[test]
fn files_have_their_names() {
    assert_eq!(temporary_name(&Some("s.json".into()), "state.json", 42), ".s.json.42.tmp");
    assert_eq!(temporary_name(&None, "target", 7), ".target.7.tmp");
    assert_eq!(credentials_temporary_name(7), ".subscription-governor-credentials-7.tmp");
    assert_eq!(lock_path("/srv/state.json"), "/srv/state.json.lock");
}

use subscription_governor::config::{
    default_anthropic_token_url, default_anthropic_usage_url, default_claude_credentials,
    default_codex_executable, default_min_sample, default_poll_interval, default_stale_after,
    default_step, default_timeout, AccountConfig,
    ActuatorConfig, Config, FleetConfig, SourceConfig, StaleBehavior, Strategy, UtilizationConfig,
    WindowPolicy, WorkerObserverConfig,
};
use subscription_governor::double::Double;
use subscription_governor::model::default_true;
use std::path::PathBuf;
use subscription_governor::name_map::NameMap;
use subscription_governor::paths::{expand_tilde, expand_tilde_in, FilePath};

fn share(value: f64) -> Double {
    Double { bits: value.to_bits() }
}

fn utilization() -> UtilizationConfig {
    UtilizationConfig {
        target_utilization: Some(share(0.9)),
        reserve_fraction: None,
        strategy: Strategy::default(),
        stale_after_seconds: 900,
        stale_behavior: StaleBehavior::default(),
        minimum_sample_seconds: 300,
        windows: NameMap::new(),
    }
}

fn account() -> AccountConfig {
    AccountConfig {
        source: SourceConfig::NormalizedFile { path: FilePath::Written("~/quota.json".into()) },
        fleet: FleetConfig {
            min_workers: 0,
            max_workers: 10,
            bootstrap_workers: 1,
            max_scale_up_per_cycle: 1,
            max_scale_down_per_cycle: 1,
            observer: WorkerObserverConfig::Static { workers: 4 },
            actuator: ActuatorConfig::default(),
        },
        utilization: utilization(),
    }
}

fn config_of(account: AccountConfig) -> Config {
    let mut accounts = NameMap::new();
    accounts.insert("main".into(), account);
    Config { version: 1, poll_interval_seconds: 60, state_path: None, accounts }
}

fn refusal(account: AccountConfig) -> String {
    config_of(account).validate().unwrap_err().message()
}

#[test]
fn reserve_becomes_target() {
    let config = UtilizationConfig {
        target_utilization: None,
        reserve_fraction: Some(share(0.15)),
        strategy: Strategy::LinearToReset,
        stale_after_seconds: 900,
        stale_behavior: StaleBehavior::Hold,
        minimum_sample_seconds: 300,
        windows: NameMap::new(),
    };
    assert_eq!(config.policy_for("weekly").unwrap().target, share(0.85));
}

#[test]
fn a_window_overrides_what_it_sets() {
    let mut config = utilization();
    config.windows.insert(
        "weekly".into(),
        WindowPolicy { reserve_fraction: Some(share(0.2)), ..WindowPolicy::default() },
    );
    config.windows.insert(
        "burst".into(),
        WindowPolicy { strategy: Some(Strategy::CeilingOnly), ..WindowPolicy::default() },
    );
    config.windows.insert(
        "off".into(),
        WindowPolicy { enabled: Some(false), ..WindowPolicy::default() },
    );
    let weekly = config.policy_for("weekly").unwrap();
    assert_eq!((weekly.target, weekly.strategy), (share(0.8), Strategy::LinearToReset));
    let burst = config.policy_for("burst").unwrap();
    assert_eq!((burst.target, burst.strategy), (share(0.9), Strategy::CeilingOnly));
    assert!(config.policy_for("off").is_none());
    assert_eq!(config.policy_for("unlisted").unwrap().target, share(0.9));
}

#[test]
fn a_sound_configuration_is_valid() {
    assert!(config_of(account()).validate().is_ok());
}

#[test]
fn the_whole_is_checked_first() {
    let mut config = config_of(account());
    config.version = 2;
    assert_eq!(config.validate().unwrap_err().message(), "unsupported config version 2; expected 1");
    let mut config = config_of(account());
    config.accounts = NameMap::new();
    assert_eq!(config.validate().unwrap_err().message(), "at least one account is required");
    let mut config = config_of(account());
    config.poll_interval_seconds = 0;
    assert_eq!(config.validate().unwrap_err().message(), "poll_interval_seconds must be positive");
}

#[test]
fn fleet_bounds_are_checked() {
    let mut bad = account();
    bad.fleet.min_workers = 11;
    assert_eq!(refusal(bad), "account main: max_workers must be >= min_workers");
    let mut bad = account();
    bad.fleet.bootstrap_workers = 11;
    assert_eq!(refusal(bad), "account main: bootstrap_workers must be <= max_workers");
}

#[test]
fn targets_are_checked() {
    let mut bad = account();
    bad.utilization.reserve_fraction = Some(share(0.1));
    assert_eq!(refusal(bad), "account main: set target_utilization or reserve_fraction, not both");
    let mut bad = account();
    bad.utilization.target_utilization = None;
    assert_eq!(refusal(bad), "account main: target_utilization or reserve_fraction is required");
    for target in [0.0, -0.1, 1.0000000000000002, f64::NAN, f64::INFINITY] {
        let mut bad = account();
        bad.utilization.target_utilization = Some(share(target));
        assert_eq!(refusal(bad), "account main: target_utilization must be in (0, 1]");
    }
    for target in [1.0, f64::MIN_POSITIVE, 1e-30] {
        let mut good = account();
        good.utilization.target_utilization = Some(share(target));
        assert!(config_of(good).validate().is_ok());
    }
    for reserve in [1.0, -0.1, f64::NAN] {
        let mut bad = account();
        bad.utilization.target_utilization = None;
        bad.utilization.reserve_fraction = Some(share(reserve));
        assert_eq!(refusal(bad), "account main: reserve_fraction must be in [0, 1)");
    }
    for reserve in [0.0, -0.0, 0.9999999999999999] {
        let mut good = account();
        good.utilization.target_utilization = None;
        good.utilization.reserve_fraction = Some(share(reserve));
        assert!(config_of(good).validate().is_ok());
    }
}

#[test]
fn window_targets_are_checked() {
    let mut bad = account();
    bad.utilization.windows.insert(
        "weekly".into(),
        WindowPolicy { target_utilization: Some(share(2.0)), ..WindowPolicy::default() },
    );
    assert_eq!(refusal(bad), "account main window weekly: target_utilization must be in (0, 1]");
}

#[test]
fn commands_are_checked() {
    let mut bad = account();
    bad.source = SourceConfig::Command { argv: vec![] };
    assert_eq!(refusal(bad), "account main source command: argv must contain non-empty arguments");
    let mut bad = account();
    bad.fleet.observer = WorkerObserverConfig::Command { argv: vec!["count".into(), "".into()] };
    assert_eq!(refusal(bad), "account main observer command: argv must contain non-empty arguments");
    let mut bad = account();
    bad.fleet.actuator = ActuatorConfig::Command { argv: vec!["scale".into()] };
    assert_eq!(refusal(bad), "account main actuator command: argv must contain {desired_workers}");
    let mut good = account();
    good.fleet.actuator =
        ActuatorConfig::Command { argv: vec!["scale".into(), "--to={desired_workers}".into()] };
    assert!(config_of(good).validate().is_ok());
}

fn written(text: &str) -> FilePath {
    FilePath::Written(text.to_string())
}

/// The path that the system is given.
fn system_path(path: &FilePath) -> PathBuf {
    match path {
        FilePath::Written(text) => PathBuf::from(text),
        FilePath::Directory(directory) => directory.clone(),
        FilePath::Below { directory, rest } => directory.join(rest),
    }
}

#[test]
fn a_path_from_home_is_expanded() {
    let home = Some(PathBuf::from("/home/me"));
    let expanded = |text: &str| system_path(&expand_tilde_in(&written(text), &home));
    assert_eq!(expanded("~/a/b"), PathBuf::from("/home/me/a/b"));
    assert_eq!(expanded("~"), PathBuf::from("/home/me"));
    assert_eq!(expanded("~other/a"), PathBuf::from("~other/a"));
    assert_eq!(expanded("/a/~/b"), PathBuf::from("/a/~/b"));
    assert_eq!(expanded("~//b"), PathBuf::from("/b"));
    assert_eq!(system_path(&expand_tilde_in(&written("~/a"), &None)), PathBuf::from("~/a"));
    let below = expand_tilde_in(&written("~/~/a"), &home);
    assert_eq!(system_path(&expand_tilde_in(&below, &home)), PathBuf::from("/home/me/~/a"));
}

#[test]
fn the_home_directory_is_the_user_s() {
    let expected = match dirs::home_dir() {
        Some(home) => home.join("quota"),
        None => PathBuf::from("~/quota"),
    };
    assert_eq!(system_path(&expand_tilde(&written("~/quota"))), expected);
}

#[test]
fn a_prepared_configuration_has_its_paths_expanded() {
    let mut config = config_of(account());
    config.state_path = Some(written("~/s.json"));
    config.prepare_in(&Some(PathBuf::from("/home/me"))).unwrap();
    assert_eq!(system_path(config.state_path.as_ref().unwrap()), PathBuf::from("/home/me/s.json"));
    match &config.accounts.get("main").unwrap().source {
        SourceConfig::NormalizedFile { path } => {
            assert_eq!(system_path(path), PathBuf::from("/home/me/quota.json"))
        }
        other => panic!("{other:?}"),
    }
}

#[test]
fn the_state_path_has_a_default() {
    let config = config_of(account());
    assert_eq!(
        system_path(&config.state_path_in(&Some(PathBuf::from("/var/state")))),
        PathBuf::from("/var/state/subscription-governor/state.json")
    );
    assert_eq!(
        system_path(&config.state_path_in(&None)),
        PathBuf::from(".").join("subscription-governor/state.json")
    );
    let expected = dirs::state_dir()
        .unwrap_or_else(|| PathBuf::from("."))
        .join("subscription-governor/state.json");
    assert_eq!(system_path(&config.state_path()), expected);
    let mut config = config_of(account());
    config.state_path = Some(written("/srv/s.json"));
    assert_eq!(system_path(&config.state_path_in(&None)), PathBuf::from("/srv/s.json"));
    assert_eq!(system_path(&config.state_path()), PathBuf::from("/srv/s.json"));
}

#[test]
fn a_window_s_reserve_is_its_target() {
    let policy = |window: WindowPolicy| {
        let mut config = utilization();
        config.windows.insert("weekly".into(), window);
        config.policy_for("weekly").unwrap().target
    };
    let reserve = WindowPolicy { reserve_fraction: Some(share(0.2)), ..WindowPolicy::default() };
    let target = WindowPolicy { target_utilization: Some(share(0.8)), ..WindowPolicy::default() };
    assert_eq!(policy(reserve), policy(target));
}

#[test]
fn defaults_are_fixed() {
    assert_eq!(default_poll_interval(), 300);
    assert_eq!(default_stale_after(), 900);
    assert_eq!(default_min_sample(), 300);
    assert_eq!(default_step(), 1);
    assert_eq!(default_timeout(), 15);
    assert!(default_true());
    assert_eq!(default_codex_executable(), "codex");
    assert_eq!(default_anthropic_usage_url(), "https://api.anthropic.com/api/oauth/usage");
    assert_eq!(default_claude_credentials("product"), "~/.product/.credentials.json");
    assert_eq!(
        default_anthropic_token_url("product"),
        "https://platform.product.com/v1/oauth/token"
    );
}

#[test]
fn a_valid_reserve_leaves_a_valid_target() {
    for reserve in [0.0, -0.0, 5e-324, 0.15, 0.5, 1.0 - f64::EPSILON / 2.0] {
        let mut good = account();
        good.utilization.target_utilization = None;
        good.utilization.reserve_fraction = Some(share(reserve));
        assert!(config_of(good.clone()).validate().is_ok());
        let target = f64::from_bits(good.utilization.policy_for("weekly").unwrap().target.bits);
        assert_eq!(target, 1.0 - reserve);
        assert!(target > 0.0 && target <= 1.0);
    }
}

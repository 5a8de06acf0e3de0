//! The configuration: accounts, where their quota is read, their fleets and their policies.

use crate::double::{
    difference, exceeds, is_finite, law_difference_is_bounded, law_difference_is_near,
    law_one_is_one, law_order_is_of_values, law_rest_of_one_in_range, lemma_magnitude, one, reaches,
    unit_count, value, zero, Double,
};
use crate::name_map::{lookup, named_at, NameMap};
use crate::paths::{expand_tilde_in, expanded, FilePath, PathView};
use crate::text::{contains_text, decimal, digits, join2, join3, join4, occurs, precedes};
use std::path::PathBuf;
use vstd::prelude::*;

verus! {

/// All that the governor is told: how often it looks, where it keeps its state, and the accounts.
#[derive(Clone, Debug)]
pub struct Config {
    pub version: u32,
    pub poll_interval_seconds: u64,
    pub state_path: Option<FilePath>,
    pub accounts: NameMap<AccountConfig>,
}

/// One subscription: where its quota is read, the fleet that burns it, and the policy.
#[derive(Clone, Debug)]
pub struct AccountConfig {
    pub source: SourceConfig,
    pub fleet: FleetConfig,
    pub utilization: UtilizationConfig,
}

/// Where an account's quota is read.
#[derive(Clone, Debug)]
pub enum SourceConfig {
    NormalizedFile { path: FilePath },
    NormalizedHttp { url: String, timeout_seconds: u64 },
    Command { argv: Vec<String> },
    AnthropicOauth {
        credentials_path: FilePath,
        usage_url: String,
        token_url: String,
        timeout_seconds: u64,
    },
    CodexAppServer { executable: FilePath, timeout_seconds: u64 },
}

/// The bounds of a fleet, and how its workers are counted and set.
#[derive(Clone, Debug)]
pub struct FleetConfig {
    pub min_workers: u32,
    pub max_workers: u32,
    pub bootstrap_workers: u32,
    pub max_scale_up_per_cycle: u32,
    pub max_scale_down_per_cycle: u32,
    pub observer: WorkerObserverConfig,
    pub actuator: ActuatorConfig,
}

/// How a fleet's workers are counted.
#[derive(Clone, Debug)]
pub enum WorkerObserverConfig {
    Static { workers: u32 },
    File { path: FilePath },
    Command { argv: Vec<String> },
}

/// How a fleet is told its target, if it is.
#[derive(Clone, Debug)]
pub enum ActuatorConfig {
    Off,
    TargetFile { path: FilePath },
    Command { argv: Vec<String> },
}

impl Default for ActuatorConfig {
    fn default() -> (actuator: ActuatorConfig)
        ensures
            actuator is Off,
    {
        ActuatorConfig::Off
    }
}

/// How much of an account's quota is to be used, and how.
#[derive(Clone, Debug)]
pub struct UtilizationConfig {
    pub target_utilization: Option<Double>,
    pub reserve_fraction: Option<Double>,
    pub strategy: Strategy,
    pub stale_after_seconds: u64,
    pub stale_behavior: StaleBehavior,
    pub minimum_sample_seconds: u64,
    pub windows: NameMap<WindowPolicy>,
}

/// How a window below its target is used.
#[derive(Clone, Copy, Debug, PartialEq, Eq, Structural)]
pub enum Strategy {
    LinearToReset,
    CeilingOnly,
}

impl Default for Strategy {
    fn default() -> (strategy: Strategy)
        ensures
            strategy is LinearToReset,
    {
        Strategy::LinearToReset
    }
}

/// What is done on a stale snapshot.
#[derive(Clone, Copy, Debug, PartialEq, Eq, Structural)]
pub enum StaleBehavior {
    Hold,
    MinWorkers,
}

impl Default for StaleBehavior {
    fn default() -> (behavior: StaleBehavior)
        ensures
            behavior is Hold,
    {
        StaleBehavior::Hold
    }
}

/// What one window does otherwise than its account.
#[derive(Clone, Copy, Debug, PartialEq, Eq, Structural)]
pub struct WindowPolicy {
    pub enabled: Option<bool>,
    pub target_utilization: Option<Double>,
    pub reserve_fraction: Option<Double>,
    pub strategy: Option<Strategy>,
}

impl Default for WindowPolicy {
    fn default() -> (policy: WindowPolicy)
        ensures
            policy.enabled is None,
            policy.target_utilization is None,
            policy.reserve_fraction is None,
            policy.strategy is None,
    {
        WindowPolicy {
            enabled: None,
            target_utilization: None,
            reserve_fraction: None,
            strategy: None,
        }
    }
}

/// The target and the strategy that hold for one window.
#[derive(Clone, Copy, Debug, PartialEq, Eq, Structural)]
pub struct ResolvedPolicy {
    pub target: Double,
    pub strategy: Strategy,
}

/// What a configuration can be refused for.
#[derive(Clone, Copy, Debug, PartialEq, Eq, Structural)]
pub enum Problem {
    UnsupportedVersion(u32),
    NoAccounts,
    NoPollInterval,
    MaxBelowMin,
    BootstrapAboveMax,
    TargetAndReserve,
    NoTarget,
    TargetOutOfRange,
    ReserveOutOfRange,
    EmptyArgument,
    NoPlaceholder,
}

/// A refused configuration: the part of it that is at fault, and why.
#[derive(Clone, Debug)]
pub struct ConfigError {
    pub context: String,
    pub problem: Problem,
}

/// What is at fault, if anything: the context and the problem.
pub type Finding = Option<(Seq<char>, Problem)>;

/// A check comes out as the finding says.
pub open spec fn reports(result: Result<(), ConfigError>, finding: Finding) -> bool {
    match result {
        Ok(_) => finding is None,
        Err(error) => finding == Some((error.context@, error.problem)),
    }
}

/// A problem within a context.
pub open spec fn within(context: Seq<char>, problem: Option<Problem>) -> Finding {
    match problem {
        Some(problem) => Some((context, problem)),
        None => None,
    }
}

/// The words for a problem.
pub open spec fn problem_text(problem: Problem) -> Seq<char> {
    match problem {
        Problem::UnsupportedVersion(version) => "unsupported config version "@ + digits(
            version as nat,
        ) + "; expected 1"@,
        Problem::NoAccounts => "at least one account is required"@,
        Problem::NoPollInterval => "poll_interval_seconds must be positive"@,
        Problem::MaxBelowMin => "max_workers must be >= min_workers"@,
        Problem::BootstrapAboveMax => "bootstrap_workers must be <= max_workers"@,
        Problem::TargetAndReserve => "set target_utilization or reserve_fraction, not both"@,
        Problem::NoTarget => "target_utilization or reserve_fraction is required"@,
        Problem::TargetOutOfRange => "target_utilization must be in (0, 1]"@,
        Problem::ReserveOutOfRange => "reserve_fraction must be in [0, 1)"@,
        Problem::EmptyArgument => "argv must contain non-empty arguments"@,
        Problem::NoPlaceholder => "argv must contain {desired_workers}"@,
    }
}

fn describe_problem(problem: Problem) -> (text: String)
    ensures
        text@ == problem_text(problem),
{
    match problem {
        Problem::UnsupportedVersion(version) => join3(
            "unsupported config version ",
            decimal(version as u64).as_str(),
            "; expected 1",
        ),
        Problem::NoAccounts => "at least one account is required".to_owned(),
        Problem::NoPollInterval => "poll_interval_seconds must be positive".to_owned(),
        Problem::MaxBelowMin => "max_workers must be >= min_workers".to_owned(),
        Problem::BootstrapAboveMax => "bootstrap_workers must be <= max_workers".to_owned(),
        Problem::TargetAndReserve =>
            "set target_utilization or reserve_fraction, not both".to_owned(),
        Problem::NoTarget => "target_utilization or reserve_fraction is required".to_owned(),
        Problem::TargetOutOfRange => "target_utilization must be in (0, 1]".to_owned(),
        Problem::ReserveOutOfRange => "reserve_fraction must be in [0, 1)".to_owned(),
        Problem::EmptyArgument => "argv must contain non-empty arguments".to_owned(),
        Problem::NoPlaceholder => "argv must contain {desired_workers}".to_owned(),
    }
}

impl ConfigError {
    /// The message for a reader: the context, where there is one, and the problem.
    pub fn message(&self) -> (text: String)
        ensures
            text@ == (if self.context@.len() == 0 {
                problem_text(self.problem)
            } else {
                self.context@ + ": "@ + problem_text(self.problem)
            }),
    {
        if self.context.as_str().is_empty() {
            describe_problem(self.problem)
        } else {
            join3(self.context.as_str(), ": ", describe_problem(self.problem).as_str())
        }
    }
}

fn refuse(context: &str, problem: Problem) -> (result: Result<(), ConfigError>)
    ensures
        reports(result, Some((context@, problem))),
{
    Err(ConfigError { context: context.to_owned(), problem })
}

/// A target lies above nothing and within the whole quota.
pub open spec fn target_in_range(target: Double) -> bool {
    exceeds(target, zero()) && reaches(one(), target)
}

/// A reserve leaves something of the quota.
pub open spec fn reserve_in_range(reserve: Double) -> bool {
    reaches(reserve, zero()) && exceeds(one(), reserve)
}

/// What is wrong with a target and a reserve.
pub open spec fn target_problem(
    target: Option<Double>,
    reserve: Option<Double>,
    required: bool,
) -> Option<Problem> {
    if target is Some && reserve is Some {
        Some(Problem::TargetAndReserve)
    } else if required && target is None && reserve is None {
        Some(Problem::NoTarget)
    } else if target is Some && !target_in_range(target->0) {
        Some(Problem::TargetOutOfRange)
    } else if reserve is Some && !reserve_in_range(reserve->0) {
        Some(Problem::ReserveOutOfRange)
    } else {
        None
    }
}

/// Checks that at most one of a target and a reserve is set, and that it is in range.
pub fn validate_target(
    target: Option<Double>,
    reserve: Option<Double>,
    context: &str,
    required: bool,
) -> (result: Result<(), ConfigError>)
    ensures
        reports(result, within(context@, target_problem(target, reserve, required))),
{
    if target.is_some() && reserve.is_some() {
        return refuse(context, Problem::TargetAndReserve);
    }
    if required && target.is_none() && reserve.is_none() {
        return refuse(context, Problem::NoTarget);
    }
    if let Some(value) = target {
        let whole: Double = Double { bits: 0x3ff0_0000_0000_0000 };
        if !(value.exceeds(Double { bits: 0 }) && whole.reaches(value)) {
            return refuse(context, Problem::TargetOutOfRange);
        }
    }
    if let Some(value) = reserve {
        let whole: Double = Double { bits: 0x3ff0_0000_0000_0000 };
        if !(value.reaches(Double { bits: 0 }) && whole.exceeds(value)) {
            return refuse(context, Problem::ReserveOutOfRange);
        }
    }
    Ok(())
}

/// The text that an actuator command has in place of the worker count.
pub open spec fn placeholder() -> Seq<char> {
    "{desired_workers}"@
}

/// What is wrong with a command's arguments.
pub open spec fn argv_problem(argv: Seq<String>, require_placeholder: bool) -> Option<Problem> {
    if argv.len() == 0 || exists|i: int| 0 <= i < argv.len() && (#[trigger] argv[i])@.len() == 0 {
        Some(Problem::EmptyArgument)
    } else if require_placeholder && !exists|i: int|
        0 <= i < argv.len() && occurs((#[trigger] argv[i])@, placeholder()) {
        Some(Problem::NoPlaceholder)
    } else {
        None
    }
}

/// Checks that a command has arguments, none of them empty, and the placeholder where it is
/// needed.
pub fn validate_argv(argv: &Vec<String>, context: &str, require_placeholder: bool) -> (result:
    Result<(), ConfigError>)
    ensures
        reports(result, within(context@, argv_problem(argv@, require_placeholder))),
{
    if argv.len() == 0 {
        return refuse(context, Problem::EmptyArgument);
    }
    let mut found: bool = false;
    for i in 0..argv.len()
        invariant
            forall|j: int| 0 <= j < i ==> (#[trigger] argv@[j])@.len() > 0,
            found == exists|j: int| 0 <= j < i && occurs((#[trigger] argv@[j])@, placeholder()),
    {
        if argv[i].as_str().is_empty() {
            return refuse(context, Problem::EmptyArgument);
        }
        if contains_text(argv[i].as_str(), "{desired_workers}") {
            assert(occurs(argv@[i as int]@, placeholder()));
            found = true;
        }
    }
    if require_placeholder && !found {
        return refuse(context, Problem::NoPlaceholder);
    }
    Ok(())
}

/// What is wrong with a source.
pub open spec fn source_problem(source: SourceConfig, account: Seq<char>) -> Finding {
    match source {
        SourceConfig::Command { argv } => within(
            "account "@ + account + " source command"@,
            argv_problem(argv@, false),
        ),
        _ => None,
    }
}

/// Checks a source.
pub fn validate_source(source: &SourceConfig, account: &str) -> (result: Result<(), ConfigError>)
    ensures
        reports(result, source_problem(*source, account@)),
{
    match source {
        SourceConfig::Command { argv } => validate_argv(
            argv,
            join3("account ", account, " source command").as_str(),
            false,
        ),
        _ => Ok(()),
    }
}

/// The first of two findings.
pub open spec fn first_of(a: Finding, b: Finding) -> Finding {
    match a {
        Some(_) => a,
        None => b,
    }
}

/// What is wrong with the commands of a fleet.
pub open spec fn fleet_problem(fleet: FleetConfig, account: Seq<char>) -> Finding {
    let observer = match fleet.observer {
        WorkerObserverConfig::Command { argv } => within(
            "account "@ + account + " observer command"@,
            argv_problem(argv@, false),
        ),
        _ => None,
    };
    let actuator = match fleet.actuator {
        ActuatorConfig::Command { argv } => within(
            "account "@ + account + " actuator command"@,
            argv_problem(argv@, true),
        ),
        _ => None,
    };
    first_of(observer, actuator)
}

/// Checks the commands of a fleet.
pub fn validate_fleet(fleet: &FleetConfig, account: &str) -> (result: Result<(), ConfigError>)
    ensures
        reports(result, fleet_problem(*fleet, account@)),
{
    if let WorkerObserverConfig::Command { argv } = &fleet.observer {
        let checked: Result<(), ConfigError> = validate_argv(
            argv,
            join3("account ", account, " observer command").as_str(),
            false,
        );
        if checked.is_err() {
            return checked;
        }
    }
    if let ActuatorConfig::Command { argv } = &fleet.actuator {
        return validate_argv(
            argv,
            join3("account ", account, " actuator command").as_str(),
            true,
        );
    }
    Ok(())
}

/// What is wrong with the window policies from the one at `from` on.
pub open spec fn windows_problem(
    entries: Seq<(Seq<char>, WindowPolicy)>,
    account: Seq<char>,
    from: int,
) -> Finding
    decreases entries.len() - from,
{
    if from < 0 || from >= entries.len() {
        None
    } else {
        first_of(
            within(
                "account "@ + account + " window "@ + entries[from].0,
                target_problem(
                    entries[from].1.target_utilization,
                    entries[from].1.reserve_fraction,
                    false,
                ),
            ),
            windows_problem(entries, account, from + 1),
        )
    }
}

/// What is wrong with an account, in the order of the checks.
pub open spec fn account_problem(account: AccountConfig, name: Seq<char>) -> Finding {
    let context = "account "@ + name;
    if account.fleet.max_workers < account.fleet.min_workers {
        Some((context, Problem::MaxBelowMin))
    } else if account.fleet.bootstrap_workers > account.fleet.max_workers {
        Some((context, Problem::BootstrapAboveMax))
    } else {
        first_of(
            within(
                context,
                target_problem(
                    account.utilization.target_utilization,
                    account.utilization.reserve_fraction,
                    true,
                ),
            ),
            first_of(
                windows_problem(account.utilization.windows@, name, 0),
                first_of(
                    source_problem(account.source, name),
                    fleet_problem(account.fleet, name),
                ),
            ),
        )
    }
}

/// What is wrong with the accounts from the one at `from` on.
pub open spec fn accounts_problem(entries: Seq<(Seq<char>, AccountConfig)>, from: int) -> Finding
    decreases entries.len() - from,
{
    if from < 0 || from >= entries.len() {
        None
    } else {
        first_of(
            account_problem(entries[from].1, entries[from].0),
            accounts_problem(entries, from + 1),
        )
    }
}

/// What is wrong with a configuration.
pub open spec fn config_problem(config: Config) -> Finding {
    if config.version != 1 {
        Some((Seq::<char>::empty(), Problem::UnsupportedVersion(config.version)))
    } else if config.accounts@.len() == 0 {
        Some((Seq::<char>::empty(), Problem::NoAccounts))
    } else if config.poll_interval_seconds == 0 {
        Some((Seq::<char>::empty(), Problem::NoPollInterval))
    } else {
        accounts_problem(config.accounts@, 0)
    }
}

fn refuse_all(problem: Problem) -> (result: Result<(), ConfigError>)
    ensures
        reports(result, Some((Seq::<char>::empty(), problem))),
{
    Err(ConfigError { context: String::new(), problem })
}

impl AccountConfig {
    /// Checks one account.
    pub fn validate(&self, name: &str) -> (result: Result<(), ConfigError>)
        ensures
            reports(result, account_problem(*self, name@)),
    {
        let context: String = join2("account ", name);
        if self.fleet.max_workers < self.fleet.min_workers {
            return refuse(context.as_str(), Problem::MaxBelowMin);
        }
        if self.fleet.bootstrap_workers > self.fleet.max_workers {
            return refuse(context.as_str(), Problem::BootstrapAboveMax);
        }
        let target: Result<(), ConfigError> = validate_target(
            self.utilization.target_utilization,
            self.utilization.reserve_fraction,
            context.as_str(),
            true,
        );
        if target.is_err() {
            return target;
        }
        let ghost entries = self.utilization.windows@;
        let count: usize = self.utilization.windows.len();
        for i in 0..count
            invariant
                entries == self.utilization.windows@,
                count == entries.len(),
                windows_problem(entries, name@, 0) == windows_problem(entries, name@, i as int),
                !(self.fleet.max_workers < self.fleet.min_workers),
                !(self.fleet.bootstrap_workers > self.fleet.max_workers),
                target_problem(
                    self.utilization.target_utilization,
                    self.utilization.reserve_fraction,
                    true,
                ) is None,
        {
            let policy: &WindowPolicy = self.utilization.windows.value_at(i);
            let checked: Result<(), ConfigError> = validate_target(
                policy.target_utilization,
                policy.reserve_fraction,
                join4(
                    "account ",
                    name,
                    " window ",
                    self.utilization.windows.name_at(i).as_str(),
                ).as_str(),
                false,
            );
            if checked.is_err() {
                return checked;
            }
        }
        let source: Result<(), ConfigError> = validate_source(&self.source, name);
        if source.is_err() {
            return source;
        }
        validate_fleet(&self.fleet, name)
    }
}

impl Config {
    /// Checks the whole configuration, accounts and windows in the order of their names.
    pub fn validate(&self) -> (result: Result<(), ConfigError>)
        ensures
            reports(result, config_problem(*self)),
    {
        if self.version != 1 {
            return refuse_all(Problem::UnsupportedVersion(self.version));
        }
        let count: usize = self.accounts.len();
        if count == 0 {
            return refuse_all(Problem::NoAccounts);
        }
        if self.poll_interval_seconds == 0 {
            return refuse_all(Problem::NoPollInterval);
        }
        let ghost entries = self.accounts@;
        for i in 0..count
            invariant
                entries == self.accounts@,
                count == entries.len(),
                accounts_problem(entries, 0) == accounts_problem(entries, i as int),
                config_problem(*self) == accounts_problem(entries, 0),
        {
            let checked: Result<(), ConfigError> = self.accounts.value_at(i).validate(
                self.accounts.name_at(i).as_str(),
            );
            if checked.is_err() {
                return checked;
            }
        }
        Ok(())
    }
}

/// What a reserve leaves of a quota.
pub open spec fn rest_of(reserve: Double) -> Double {
    difference(one(), reserve)
}

/// The target that a policy of a target or a reserve sets.
pub open spec fn target_of(target: Option<Double>, reserve: Option<Double>) -> Option<Double> {
    match target {
        Some(target) => Some(target),
        None => match reserve {
            Some(reserve) => Some(rest_of(reserve)),
            None => None,
        },
    }
}

/// The target for a window: its own where it sets one, else that of its account.
pub open spec fn window_target(config: UtilizationConfig, id: Seq<char>) -> Option<Double> {
    let general = target_of(config.target_utilization, config.reserve_fraction);
    match lookup(config.windows@, id) {
        Some(policy) => match target_of(policy.target_utilization, policy.reserve_fraction) {
            Some(target) => Some(target),
            None => general,
        },
        None => general,
    }
}

/// The strategy for a window: its own where it selects one, else that of its account.
pub open spec fn window_strategy(config: UtilizationConfig, id: Seq<char>) -> Strategy {
    match lookup(config.windows@, id) {
        Some(policy) => match policy.strategy {
            Some(strategy) => strategy,
            None => config.strategy,
        },
        None => config.strategy,
    }
}

/// The configuration switches a window off.
pub open spec fn window_disabled(config: UtilizationConfig, id: Seq<char>) -> bool {
    lookup(config.windows@, id) matches Some(policy) && policy.enabled == Some(false)
}

/// The policy for a window, unless it is switched off.
pub open spec fn resolved_policy(config: UtilizationConfig, id: Seq<char>) -> Option<
    ResolvedPolicy,
> {
    if window_disabled(config, id) {
        None
    } else {
        Some(
            ResolvedPolicy {
                target: window_target(config, id)->0,
                strategy: window_strategy(config, id),
            },
        )
    }
}

/// A window that is not switched off has a target.
pub open spec fn resolvable(config: UtilizationConfig, id: Seq<char>) -> bool {
    window_disabled(config, id) || window_target(config, id) is Some
}

/// The target of a target or a reserve.
fn chosen_target(target: Option<Double>, reserve: Option<Double>) -> (chosen: Option<Double>)
    ensures
        chosen == target_of(target, reserve),
{
    match target {
        Some(target) => Some(target),
        None => match reserve {
            Some(reserve) => Some(Double { bits: 0x3ff0_0000_0000_0000 }.minus(reserve)),
            None => None,
        },
    }
}

impl UtilizationConfig {
    /// The policy that holds for the window `id`, or nothing if it is switched off.
    pub fn policy_for(&self, id: &str) -> (policy: Option<ResolvedPolicy>)
        requires
            resolvable(*self, id@),
        ensures
            policy == resolved_policy(*self, id@),
    {
        let general: Option<Double> = chosen_target(
            self.target_utilization,
            self.reserve_fraction,
        );
        match self.windows.get(id) {
            Some(own) => {
                if own.enabled == Some(false) {
                    return None;
                }
                let target: Option<Double> = match chosen_target(
                    own.target_utilization,
                    own.reserve_fraction,
                ) {
                    Some(target) => Some(target),
                    None => general,
                };
                Some(
                    ResolvedPolicy {
                        target: target.unwrap(),
                        strategy: match own.strategy {
                            Some(strategy) => strategy,
                            None => self.strategy,
                        },
                    },
                )
            },
            None => Some(ResolvedPolicy { target: general.unwrap(), strategy: self.strategy }),
        }
    }
}

/// A source after its paths were expanded; all else is as before.
pub open spec fn source_expanded(
    before: SourceConfig,
    after: SourceConfig,
    home: Option<PathBuf>,
) -> bool {
    match before {
        SourceConfig::NormalizedFile { path } => {
            after matches SourceConfig::NormalizedFile { path: new_path } && new_path@ == expanded(
                path@,
                home,
            )
        },
        SourceConfig::AnthropicOauth { credentials_path, usage_url, token_url, timeout_seconds } => {
            after matches SourceConfig::AnthropicOauth {
                credentials_path: new_path,
                usage_url: new_usage,
                token_url: new_token,
                timeout_seconds: new_timeout,
            } && new_path@ == expanded(credentials_path@, home) && new_usage == usage_url
                && new_token == token_url && new_timeout == timeout_seconds
        },
        SourceConfig::CodexAppServer { executable, timeout_seconds } => {
            after matches SourceConfig::CodexAppServer {
                executable: new_executable,
                timeout_seconds: new_timeout,
            } && new_executable@ == expanded(executable@, home) && new_timeout == timeout_seconds
        },
        _ => after == before,
    }
}

impl SourceConfig {
    /// Expands the paths of a source in the given home directory.
    pub fn expand_paths_in(&mut self, home: &Option<PathBuf>)
        ensures
            source_expanded(*old(self), *final(self), *home),
    {
        match self {
            SourceConfig::NormalizedFile { path } => {
                *path = expand_tilde_in(path, home);
            },
            SourceConfig::AnthropicOauth { credentials_path, .. } => {
                *credentials_path = expand_tilde_in(credentials_path, home);
            },
            SourceConfig::CodexAppServer { executable, .. } => {
                *executable = expand_tilde_in(executable, home);
            },
            _ => {},
        }
    }

    /// Expands the paths of a source in the user's home directory.
    pub fn expand_paths(&mut self)
        ensures
            exists|home: Option<PathBuf>| #[trigger]
                source_expanded(*old(self), *final(self), home),
    {
        let home: Option<PathBuf> = dirs::home_dir();
        self.expand_paths_in(&home);
        assert(source_expanded(*old(self), *self, home));
    }
}

/// A fleet after its paths were expanded; all else is as before.
pub open spec fn fleet_expanded(
    before: FleetConfig,
    after: FleetConfig,
    home: Option<PathBuf>,
) -> bool {
    &&& after.min_workers == before.min_workers
    &&& after.max_workers == before.max_workers
    &&& after.bootstrap_workers == before.bootstrap_workers
    &&& after.max_scale_up_per_cycle == before.max_scale_up_per_cycle
    &&& after.max_scale_down_per_cycle == before.max_scale_down_per_cycle
    &&& match before.observer {
        WorkerObserverConfig::File { path } => {
            after.observer matches WorkerObserverConfig::File { path: new_path } && new_path@
                == expanded(path@, home)
        },
        _ => after.observer == before.observer,
    }
    &&& match before.actuator {
        ActuatorConfig::TargetFile { path } => {
            after.actuator matches ActuatorConfig::TargetFile { path: new_path } && new_path@
                == expanded(path@, home)
        },
        _ => after.actuator == before.actuator,
    }
}

impl FleetConfig {
    /// Expands the paths of a fleet in the given home directory.
    pub fn expand_paths_in(&mut self, home: &Option<PathBuf>)
        ensures
            fleet_expanded(*old(self), *final(self), *home),
    {
        match &mut self.observer {
            WorkerObserverConfig::File { path } => {
                *path = expand_tilde_in(path, home);
            },
            _ => {},
        }
        match &mut self.actuator {
            ActuatorConfig::TargetFile { path } => {
                *path = expand_tilde_in(path, home);
            },
            _ => {},
        }
    }

    /// Expands the paths of a fleet in the user's home directory.
    pub fn expand_paths(&mut self)
        ensures
            exists|home: Option<PathBuf>| #[trigger]
                fleet_expanded(*old(self), *final(self), home),
    {
        let home: Option<PathBuf> = dirs::home_dir();
        self.expand_paths_in(&home);
        assert(fleet_expanded(*old(self), *self, home));
    }
}

/// A configuration after its paths were expanded; all else is as before.
pub open spec fn config_expanded(before: Config, after: Config, home: Option<PathBuf>) -> bool {
    &&& after.version == before.version
    &&& after.poll_interval_seconds == before.poll_interval_seconds
    &&& match before.state_path {
        Some(path) => after.state_path matches Some(new_path) && new_path@ == expanded(path@, home),
        None => after.state_path is None,
    }
    &&& after.accounts@.len() == before.accounts@.len()
    &&& forall|i: int|
        0 <= i < before.accounts@.len() ==> account_expanded(
            #[trigger] before.accounts@[i],
            after.accounts@[i],
            home,
        )
}

/// An account after its paths were expanded; its name and all else is as before.
pub open spec fn account_expanded(
    before: (Seq<char>, AccountConfig),
    after: (Seq<char>, AccountConfig),
    home: Option<PathBuf>,
) -> bool {
    &&& after.0 == before.0
    &&& source_expanded(before.1.source, after.1.source, home)
    &&& fleet_expanded(before.1.fleet, after.1.fleet, home)
    &&& after.1.utilization == before.1.utilization
}

/// The path of the state file where none is set.
pub open spec fn default_state_path(dir: Option<PathBuf>) -> PathView {
    match dir {
        Some(directory) => PathView::Below {
            directory,
            rest: "subscription-governor/state.json"@,
        },
        None => PathView::Written("./subscription-governor/state.json"@),
    }
}

impl Config {
    /// Expands every path in the given home directory and checks the result.
    pub fn prepare_in(&mut self, home: &Option<PathBuf>) -> (result: Result<(), ConfigError>)
        ensures
            config_expanded(*old(self), *final(self), *home),
            reports(result, config_problem(*final(self))),
    {
        let ghost before = self.accounts@;
        let state_path: Option<FilePath> = match &self.state_path {
            Some(path) => Some(expand_tilde_in(path, home)),
            None => None,
        };
        self.state_path = state_path;
        let mut accounts: NameMap<AccountConfig> = NameMap::new();
        std::mem::swap(&mut accounts, &mut self.accounts);
        let mut entries: Vec<(String, AccountConfig)> = accounts.into_entries();
        let count: usize = entries.len();
        for i in 0..count
            invariant
                count == entries@.len() == before.len(),
                forall|j: int|
                    i <= j < count ==> (#[trigger] entries@[j]).0@ == before[j].0 && entries@[j].1
                        == before[j].1,
                forall|j: int|
                    0 <= j < i ==> account_expanded(
                        before[j],
                        ((#[trigger] entries@[j]).0@, entries@[j].1),
                        *home,
                    ),
        {
            entries[i].1.source.expand_paths_in(home);
            entries[i].1.fleet.expand_paths_in(home);
        }
        proof {
            let views = Seq::new(entries@.len(), |i: int| (entries@[i].0@, entries@[i].1));
            assert forall|i: int, j: int| 0 <= i < j < views.len() implies precedes(
                (#[trigger] views[i]).0,
                (#[trigger] views[j]).0,
            ) by {
                assert(precedes(before[i].0, before[j].0));
                assert(account_expanded(
                    before[i],
                    (entries@[i].0@, entries@[i].1),
                    *home,
                ));
                assert(account_expanded(
                    before[j],
                    (entries@[j].0@, entries@[j].1),
                    *home,
                ));
            }
        }
        self.accounts = NameMap::from_entries(entries);
        self.validate()
    }

    /// Expands every path in the user's home directory and checks the result.
    pub fn prepare(&mut self) -> (result: Result<(), ConfigError>)
        ensures
            exists|home: Option<PathBuf>| #[trigger]
                config_expanded(*old(self), *final(self), home),
            reports(result, config_problem(*final(self))),
    {
        let home: Option<PathBuf> = dirs::home_dir();
        let result: Result<(), ConfigError> = self.prepare_in(&home);
        assert(config_expanded(*old(self), *self, home));
        result
    }

    /// The path of the state file, given the directory for state.
    pub fn state_path_in(&self, dir: &Option<PathBuf>) -> (path: FilePath)
        ensures
            path@ == (match self.state_path {
                Some(path) => path@,
                None => default_state_path(*dir),
            }),
    {
        match &self.state_path {
            Some(path) => path.copy(),
            None => match dir {
                Some(directory) => FilePath::Below {
                    directory: directory.clone(),
                    rest: "subscription-governor/state.json".to_owned(),
                },
                None => FilePath::Written("./subscription-governor/state.json".to_owned()),
            },
        }
    }

    /// The path of the state file: the one that is set, else one in the user's directory for
    /// state.
    pub fn state_path(&self) -> (path: FilePath)
        ensures
            match self.state_path {
                Some(set) => path@ == set@,
                None => exists|dir: Option<PathBuf>| path@ == #[trigger] default_state_path(dir),
            },
    {
        let dir: Option<PathBuf> = dirs::state_dir();
        let path: FilePath = self.state_path_in(&dir);
        assert(self.state_path is None ==> path@ == default_state_path(dir));
        path
    }
}

/// The seconds between two cycles where none are set.
pub fn default_poll_interval() -> (seconds: u64)
    ensures
        seconds == 300,
{
    300
}

/// The age in seconds from which on a snapshot is stale where none is set.
pub fn default_stale_after() -> (seconds: u64)
    ensures
        seconds == 900,
{
    900
}

/// The shortest interval in seconds that a burn is learned from where none is set.
pub fn default_min_sample() -> (seconds: u64)
    ensures
        seconds == 300,
{
    300
}

/// The workers that a cycle adds, removes or starts with where none are set.
pub fn default_step() -> (workers: u32)
    ensures
        workers == 1,
{
    1
}

/// The seconds that a source may take where none are set.
pub fn default_timeout() -> (seconds: u64)
    ensures
        seconds == 15,
{
    15
}

/// Where a product keeps its credentials.
pub fn default_claude_credentials(product: &str) -> (path: String)
    ensures
        path@ == "~/."@ + product@ + "/.credentials.json"@,
{
    join3("~/.", product, "/.credentials.json")
}

/// Where Anthropic reports usage.
pub fn default_anthropic_usage_url() -> (url: String)
    ensures
        url@ == "https://api.anthropic.com/api/oauth/usage"@,
{
    "https://api.anthropic.com/api/oauth/usage".to_owned()
}

/// Where Anthropic refreshes the tokens of a product.
pub fn default_anthropic_token_url(product: &str) -> (url: String)
    ensures
        url@ == "https://platform."@ + product@ + ".com/v1/oauth/token"@,
{
    join3("https://platform.", product, ".com/v1/oauth/token")
}

/// The Codex program.
pub fn default_codex_executable() -> (executable: String)
    ensures
        executable@ == "codex"@,
{
    "codex".to_owned()
}

/// A reserve is the complement of a target: an account that keeps a reserve back has the policy, on
/// every window, of one that sets the rest as its target.
pub proof fn law_reserve_is_target(a: UtilizationConfig, b: UtilizationConfig, id: Seq<char>)
    requires
        a.target_utilization is None,
        a.reserve_fraction is Some,
        b.target_utilization == Some(rest_of(a.reserve_fraction->0)),
        b.strategy == a.strategy,
        b.windows@ == a.windows@,
    ensures
        resolved_policy(a, id) == resolved_policy(b, id),
{
}

/// A window that keeps a reserve back has the policy of one that sets the rest as its target, and
/// no other window's policy differs.
pub proof fn law_window_reserve_is_target(
    a: UtilizationConfig,
    b: UtilizationConfig,
    window: Seq<char>,
    id: Seq<char>,
)
    requires
        lookup(a.windows@, window) matches Some(kept) && lookup(b.windows@, window) matches Some(
            set,
        ) && kept.target_utilization is None && kept.reserve_fraction is Some
            && set.target_utilization == Some(rest_of(kept.reserve_fraction->0)) && set.enabled
            == kept.enabled && set.strategy == kept.strategy,
        forall|other: Seq<char>|
            other != window ==> #[trigger] lookup(a.windows@, other) == lookup(b.windows@, other),
        a.target_utilization == b.target_utilization,
        a.reserve_fraction == b.reserve_fraction,
        a.strategy == b.strategy,
    ensures
        resolved_policy(a, id) == resolved_policy(b, id),
{
    if id != window {
        assert(lookup(a.windows@, id) == lookup(b.windows@, id));
    }
}

/// A window that is not listed has the policy of its account.
pub proof fn law_unlisted_inherits(config: UtilizationConfig, id: Seq<char>)
    requires
        lookup(config.windows@, id) is None,
        target_of(config.target_utilization, config.reserve_fraction) is Some,
    ensures
        resolved_policy(config, id) == Some(
            (ResolvedPolicy {
                target: target_of(config.target_utilization, config.reserve_fraction)->0,
                strategy: config.strategy,
            }),
        ),
{
}

proof fn lemma_accounts_problem_at(
    entries: Seq<(Seq<char>, AccountConfig)>,
    from: int,
    i: int,
)
    requires
        0 <= from <= i < entries.len(),
        accounts_problem(entries, from) is None,
    ensures
        account_problem(entries[i].1, entries[i].0) is None,
    decreases i - from,
{
    if from < i {
        lemma_accounts_problem_at(entries, from + 1, i);
    }
}

proof fn lemma_windows_problem_at(
    entries: Seq<(Seq<char>, WindowPolicy)>,
    account: Seq<char>,
    from: int,
    i: int,
)
    requires
        0 <= from <= i < entries.len(),
        windows_problem(entries, account, from) is None,
    ensures
        target_problem(
            entries[i].1.target_utilization,
            entries[i].1.reserve_fraction,
            false,
        ) is None,
    decreases i - from,
{
    if from < i {
        lemma_windows_problem_at(entries, account, from + 1, i);
    }
}

/// A target or a reserve without a problem sets a target in range.
proof fn lemma_target_in_range(target: Option<Double>, reserve: Option<Double>, required: bool)
    requires
        target_problem(target, reserve, required) is None,
    ensures
        target_of(target, reserve) matches Some(chosen) ==> target_in_range(chosen),
{
    if target is None && reserve is Some {
        law_rest_of_one_in_range(reserve->0);
    }
}

/// Every account of a configuration without a problem can be governed: its fleet's bounds are in
/// order, and each window, whatever its id, is switched off or has a target above nothing and
/// within the whole quota, be it set as a target or as a reserve.
pub proof fn law_valid_config_governs(config: Config, i: int, id: Seq<char>)
    requires
        config_problem(config) is None,
        0 <= i < config.accounts@.len(),
    ensures
        config.accounts@[i].1.fleet.min_workers <= config.accounts@[i].1.fleet.max_workers,
        resolvable(config.accounts@[i].1.utilization, id),
        resolved_policy(config.accounts@[i].1.utilization, id) matches Some(policy)
            ==> target_in_range(policy.target),
{
    lemma_accounts_problem_at(config.accounts@, 0, i);
    let account = config.accounts@[i].1;
    let utilization = account.utilization;
    lemma_target_in_range(utilization.target_utilization, utilization.reserve_fraction, true);
    let entries = utilization.windows@;
    if exists|k: int| named_at(entries, id, k) {
        let k = choose|k: int| named_at(entries, id, k);
        assert(named_at(entries, id, k));
        lemma_windows_problem_at(entries, config.accounts@[i].0, 0, k);
        lemma_target_in_range(
            entries[k].1.target_utilization,
            entries[k].1.reserve_fraction,
            false,
        );
    }
}

/// A window that is listed and not switched off has what it sets, whatever its account sets: its own
/// target, or what its own reserve leaves, and its own strategy. What it does not set it has from
/// its account.
pub proof fn law_window_overrides_account(
    config: UtilizationConfig,
    id: Seq<char>,
    own: WindowPolicy,
)
    requires
        lookup(config.windows@, id) == Some(own),
    ensures
        own.enabled == Some(false) <==> resolved_policy(config, id) is None,
        own.enabled != Some(false) ==> (resolved_policy(config, id) matches Some(policy) && {
            &&& own.target_utilization matches Some(target) ==> policy.target == target
            &&& own.target_utilization is None && own.reserve_fraction is Some ==> policy.target
                == difference(one(), own.reserve_fraction->0)
            &&& own.target_utilization is None && own.reserve_fraction is None
                && config.target_utilization is Some ==> policy.target
                == config.target_utilization->0
            &&& own.target_utilization is None && own.reserve_fraction is None
                && config.target_utilization is None && config.reserve_fraction is Some
                ==> policy.target == difference(one(), config.reserve_fraction->0)
            &&& policy.strategy == (match own.strategy {
                Some(strategy) => strategy,
                None => config.strategy,
            })
        }),
{
}

/// A window that is not listed is switched on, and has the account's target, or what the account's
/// reserve leaves, and the account's strategy.
pub proof fn law_unlisted_has_the_account_s(config: UtilizationConfig, id: Seq<char>)
    requires
        forall|i: int| !named_at(config.windows@, id, i),
    ensures
        resolved_policy(config, id) matches Some(policy) && {
            &&& config.target_utilization matches Some(target) ==> policy.target == target
            &&& config.target_utilization is None && config.reserve_fraction is Some
                ==> policy.target == difference(one(), config.reserve_fraction->0)
            &&& policy.strategy == config.strategy
        },
{
}

/// A reserve and the target that it leaves make up the whole quota, up to rounding.
pub proof fn law_reserve_and_target_make_the_whole(reserve: Double)
    requires
        is_finite(reserve),
        0 <= value(reserve) < unit_count(),
    ensures
        target_of(None, Some(reserve)) matches Some(target) && is_finite(target) && ({
            let left = unit_count() - value(reserve);
            -left <= 0x20_0000_0000_0000 * (value(target) - left) <= left
        }),
{
    law_one_is_one();
    law_difference_is_bounded(one(), reserve);
    law_difference_is_near(one(), reserve);
}

/// A command that can be run: it has arguments, and none is empty.
pub open spec fn is_command(argv: Seq<String>) -> bool {
    argv.len() > 0 && forall|k: int| 0 <= k < argv.len() ==> (#[trigger] argv[k])@.len() > 0
}

/// A target lies above nothing and within the whole quota; a reserve leaves something of it; and
/// they are not both set.
pub open spec fn is_policy(target: Option<Double>, reserve: Option<Double>) -> bool {
    &&& target is None || reserve is None
    &&& target matches Some(target) ==> is_finite(target) && 0 < value(target) <= unit_count()
    &&& reserve matches Some(reserve) ==> is_finite(reserve) && 0 <= value(reserve) < unit_count()
}

/// An account that can be governed.
pub open spec fn is_governable(account: AccountConfig) -> bool {
    &&& account.fleet.min_workers <= account.fleet.max_workers
    &&& account.fleet.bootstrap_workers <= account.fleet.max_workers
    &&& account.utilization.target_utilization is Some
        || account.utilization.reserve_fraction is Some
    &&& is_policy(account.utilization.target_utilization, account.utilization.reserve_fraction)
    &&& forall|k: int|
        0 <= k < account.utilization.windows@.len() ==> is_policy(
            (#[trigger] account.utilization.windows@[k]).1.target_utilization,
            account.utilization.windows@[k].1.reserve_fraction,
        )
    &&& account.source matches SourceConfig::Command { argv } ==> is_command(argv@)
    &&& account.fleet.observer matches WorkerObserverConfig::Command { argv } ==> is_command(argv@)
    &&& account.fleet.actuator matches ActuatorConfig::Command { argv } ==> is_command(argv@)
        && exists|k: int|
        0 <= k < argv@.len() && occurs((#[trigger] argv@[k])@, "{desired_workers}"@)
}

proof fn lemma_policy(target: Option<Double>, reserve: Option<Double>, required: bool)
    ensures
        target_problem(target, reserve, required) is None <==> is_policy(target, reserve) && (required
            ==> target is Some || reserve is Some),
{
    law_one_is_one();
    lemma_magnitude(0);
    if let Some(target) = target {
        if is_finite(target) {
            law_order_is_of_values(target, zero());
            law_order_is_of_values(one(), target);
        }
    }
    if let Some(reserve) = reserve {
        if is_finite(reserve) {
            law_order_is_of_values(reserve, zero());
            law_order_is_of_values(one(), reserve);
        }
    }
}

proof fn lemma_windows(entries: Seq<(Seq<char>, WindowPolicy)>, account: Seq<char>, from: int)
    requires
        0 <= from <= entries.len(),
    ensures
        windows_problem(entries, account, from) is None <==> forall|k: int|
            from <= k < entries.len() ==> is_policy(
                (#[trigger] entries[k]).1.target_utilization,
                entries[k].1.reserve_fraction,
            ),
    decreases entries.len() - from,
{
    if from < entries.len() {
        lemma_windows(entries, account, from + 1);
        lemma_policy(entries[from].1.target_utilization, entries[from].1.reserve_fraction, false);
    }
}

proof fn lemma_governable(account: AccountConfig, name: Seq<char>)
    ensures
        account_problem(account, name) is None <==> is_governable(account),
{
    lemma_windows(account.utilization.windows@, name, 0);
    lemma_policy(
        account.utilization.target_utilization,
        account.utilization.reserve_fraction,
        true,
    );
}

proof fn lemma_all_governable(entries: Seq<(Seq<char>, AccountConfig)>, from: int)
    requires
        0 <= from <= entries.len(),
    ensures
        accounts_problem(entries, from) is None <==> forall|k: int|
            from <= k < entries.len() ==> is_governable((#[trigger] entries[k]).1),
    decreases entries.len() - from,
{
    if from < entries.len() {
        lemma_all_governable(entries, from + 1);
        lemma_governable(entries[from].1, entries[from].0);
    }
}

/// A configuration is accepted exactly when it is of the known version, looks now and then, and has
/// accounts, all of which can be governed.
pub proof fn law_valid_config(config: Config)
    ensures
        config_problem(config) is None <==> config.version == 1 && config.poll_interval_seconds > 0
            && config.accounts@.len() > 0 && forall|k: int|
            0 <= k < config.accounts@.len() ==> is_governable((#[trigger] config.accounts@[k]).1),
{
    lemma_all_governable(config.accounts@, 0);
}

/// Every path in an account is expanded, and nothing else about it changes.
pub proof fn law_every_path_is_expanded(
    before: AccountConfig,
    after: AccountConfig,
    name: Seq<char>,
    home: Option<PathBuf>,
)
    requires
        account_expanded((name, before), (name, after), home),
    ensures
        before.source matches SourceConfig::NormalizedFile { path } ==> (
        after.source matches SourceConfig::NormalizedFile { path: new } && new@ == expanded(
            path@,
            home,
        )),
        before.source matches SourceConfig::AnthropicOauth {
            credentials_path,
            usage_url,
            token_url,
            timeout_seconds,
        } ==> (after.source matches SourceConfig::AnthropicOauth {
            credentials_path: new,
            usage_url: usage,
            token_url: token,
            timeout_seconds: timeout,
        } && new@ == expanded(credentials_path@, home) && usage == usage_url && token == token_url
            && timeout == timeout_seconds),
        before.source matches SourceConfig::CodexAppServer { executable, timeout_seconds } ==> (
        after.source matches SourceConfig::CodexAppServer { executable: new, timeout_seconds: timeout }
            && new@ == expanded(executable@, home) && timeout == timeout_seconds),
        before.source is NormalizedHttp || before.source is Command ==> after.source
            == before.source,
        before.fleet.observer matches WorkerObserverConfig::File { path } ==> (
        after.fleet.observer matches WorkerObserverConfig::File { path: new } && new@ == expanded(
            path@,
            home,
        )),
        !(before.fleet.observer is File) ==> after.fleet.observer == before.fleet.observer,
        before.fleet.actuator matches ActuatorConfig::TargetFile { path } ==> (
        after.fleet.actuator matches ActuatorConfig::TargetFile { path: new } && new@ == expanded(
            path@,
            home,
        )),
        !(before.fleet.actuator is TargetFile) ==> after.fleet.actuator == before.fleet.actuator,
        after.fleet.min_workers == before.fleet.min_workers,
        after.fleet.max_workers == before.fleet.max_workers,
        after.fleet.bootstrap_workers == before.fleet.bootstrap_workers,
        after.fleet.max_scale_up_per_cycle == before.fleet.max_scale_up_per_cycle,
        after.fleet.max_scale_down_per_cycle == before.fleet.max_scale_down_per_cycle,
        after.utilization == before.utilization,
{
}

/// Preparing a configuration expands the path of its state, and every path of each of its accounts
/// under the same name, and changes neither its version nor its interval.
pub proof fn law_prepared(before: Config, after: Config, home: Option<PathBuf>, i: int)
    requires
        config_expanded(before, after, home),
        0 <= i < before.accounts@.len(),
    ensures
        after.version == before.version,
        after.poll_interval_seconds == before.poll_interval_seconds,
        before.state_path matches Some(path) ==> (after.state_path matches Some(new) && new@
            == expanded(path@, home)),
        before.state_path is None ==> after.state_path is None,
        after.accounts@.len() == before.accounts@.len(),
        after.accounts@[i].0 == before.accounts@[i].0,
        account_expanded(before.accounts@[i], after.accounts@[i], home),
{
}

/// The default path of the state is the same below the directory for state, where there is one, and
/// below the working directory, where there is none.
pub proof fn law_default_state_path(dir: PathBuf)
    ensures
        default_state_path(Some(dir)) matches PathView::Below { directory, rest } && directory == dir
            && default_state_path(None) == PathView::Written("./"@ + rest),
{
    reveal_strlit("./");
    reveal_strlit("subscription-governor/state.json");
    reveal_strlit("./subscription-governor/state.json");
    assert("./"@ + "subscription-governor/state.json"@ =~= "./subscription-governor/state.json"@);
}

} // verus!

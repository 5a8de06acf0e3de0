//! One round over the accounts: what is done for each, and what is kept of it.

use crate::config::{resolvable, AccountConfig, ActuatorConfig, Config};
use crate::controller::{
    decided, evaluate, is_stale, law_decision_says_what_it_is_of, law_stale_never_scales_up,
    Decision, DecisionView, NoEnabledWindows,
};
use crate::model::QuotaSnapshot;
use crate::name_map::{ascending, lookup, named_at};
use crate::state::{
    law_recorded_is_found, law_sample_is_of_a_window, records, AccountState, State, WindowSample,
};
use crate::text::{decimal, digits, join2, precedes, precedes_irreflexive};
use crate::timestamp::Timestamp;
use vstd::prelude::*;

verus! {

/// What is done for an account in one round.
#[derive(Clone, Debug)]
pub struct CyclePlan {
    pub decision: Decision,
    /// The fleet is told the target.
    pub actuated: bool,
    /// The workers that run from this round on.
    pub sample_workers: u32,
}

/// The samples that a state holds of an account.
pub open spec fn prior_samples(state: State, account: Seq<char>) -> Seq<(Seq<char>, WindowSample)> {
    match lookup(state.accounts@, account) {
        Some(prior) => prior.windows@,
        None => Seq::empty(),
    }
}

/// A fleet is told its target when that is a change, when this is more than an observation, and
/// when it can be told.
pub open spec fn actuates(
    decision: DecisionView,
    actuator: ActuatorConfig,
    observe_only: bool,
) -> bool {
    decision.desired_workers != decision.current_workers && !observe_only && !(actuator is Off)
}

/// The workers that run after a decision.
pub open spec fn workers_after(decision: DecisionView, actuated: bool) -> u32 {
    if actuated {
        decision.desired_workers
    } else {
        decision.current_workers
    }
}

/// The plan is what a decision calls for.
pub open spec fn follows(
    plan: CyclePlan,
    decision: DecisionView,
    actuator: ActuatorConfig,
    observe_only: bool,
) -> bool {
    &&& plan.decision@ == decision
    &&& plan.actuated == actuates(decision, actuator, observe_only)
    &&& plan.sample_workers == workers_after(decision, plan.actuated)
}

fn decide(
    name: &str,
    config: &AccountConfig,
    state: &State,
    snapshot: &QuotaSnapshot,
    workers: u32,
    now: Timestamp,
) -> (result: Result<Decision, NoEnabledWindows>)
    requires
        config.fleet.min_workers <= config.fleet.max_workers,
        is_stale(config.utilization, *snapshot, now@) || forall|i: int|
            0 <= i < snapshot.windows@.len() ==> resolvable(
                config.utilization,
                (#[trigger] snapshot.windows@[i]).id@,
            ),
    ensures
        match result {
            Ok(decision) => decided(
                name@,
                *config,
                *snapshot,
                prior_samples(*state, name@),
                workers,
                now@,
            ) == Some(decision@),
            Err(error) => error.account@ == name@ && decided(
                name@,
                *config,
                *snapshot,
                prior_samples(*state, name@),
                workers,
                now@,
            ) is None,
        },
{
    match state.accounts.get(name) {
        Some(prior) => evaluate(name, config, snapshot, prior, workers, now),
        None => {
            let prior: AccountState = AccountState::default();
            assert(prior.windows@ == Seq::<(Seq<char>, WindowSample)>::empty());
            evaluate(name, config, snapshot, &prior, workers, now)
        },
    }
}

/// Plans one account's round.
pub fn plan_account(
    name: &str,
    config: &AccountConfig,
    state: &State,
    snapshot: &QuotaSnapshot,
    workers: u32,
    now: Timestamp,
    observe_only: bool,
) -> (result: Result<CyclePlan, NoEnabledWindows>)
    requires
        config.fleet.min_workers <= config.fleet.max_workers,
        is_stale(config.utilization, *snapshot, now@) || forall|i: int|
            0 <= i < snapshot.windows@.len() ==> resolvable(
                config.utilization,
                (#[trigger] snapshot.windows@[i]).id@,
            ),
    ensures
        match decided(
            name@,
            *config,
            *snapshot,
            prior_samples(*state, name@),
            workers,
            now@,
        ) {
            Some(decision) => result matches Ok(plan) && follows(
                plan,
                decision,
                config.fleet.actuator,
                observe_only,
            ),
            None => result matches Err(error) && error.account@ == name@,
        },
        result matches Ok(plan) ==> plan.decision.current_workers == workers && plan.actuated == (
        plan.decision.desired_workers != workers && !observe_only && !(
        config.fleet.actuator is Off)) && plan.sample_workers == (if plan.actuated {
            plan.decision.desired_workers
        } else {
            workers
        }),
{
    match decide(name, config, state, snapshot, workers, now) {
        Ok(decision) => {
            let changed: bool = decision.desired_workers != workers;
            let has_actuator: bool = match &config.fleet.actuator {
                ActuatorConfig::Off => false,
                _ => true,
            };
            let actuated: bool = changed && !observe_only && has_actuator;
            let sample_workers: u32 = if actuated {
                decision.desired_workers
            } else {
                workers
            };
            Ok(CyclePlan { decision, actuated, sample_workers })
        },
        Err(error) => Err(error),
    }
}

/// The state after an account's round: a stale round leaves the samples and sets the target; any
/// other records the snapshot. No other account is touched.
pub open spec fn commits(
    before: State,
    after: State,
    account: Seq<char>,
    plan: CyclePlan,
    snapshot: QuotaSnapshot,
) -> bool {
    &&& forall|other: Seq<char>|
        other != account ==> #[trigger] lookup(after.accounts@, other) == lookup(
            before.accounts@,
            other,
        )
    &&& lookup(after.accounts@, account) matches Some(kept) && if plan.decision.stale {
        kept.windows@ == prior_samples(before, account) && kept.last_target == Some(
            plan.decision.desired_workers,
        )
    } else {
        records(kept, snapshot, plan.sample_workers, plan.decision.desired_workers)
    }
}

/// Keeps what an account's round showed.
pub fn commit(state: &mut State, name: &str, plan: &CyclePlan, snapshot: &QuotaSnapshot)
    ensures
        commits(*old(state), *final(state), name@, *plan, *snapshot),
{
    let ghost before = *state;
    let mut account: AccountState = match state.accounts.remove(name) {
        Some(account) => account,
        None => AccountState::default(),
    };
    assert(account.windows@ == prior_samples(before, name@));
    if plan.decision.stale {
        account.last_target = Some(plan.decision.desired_workers);
    } else {
        account.record(snapshot, plan.sample_workers, plan.decision.desired_workers);
    }
    let ghost kept = account;
    state.accounts.insert(name.to_owned(), account);
    assert(lookup(state.accounts@, name@) == Some(kept));
}

/// What became of an account's round: its plan was carried out, or it failed.
pub type Outcome = Option<(CyclePlan, QuotaSnapshot)>;

/// The state after an account's round: a failed one leaves it as it was.
pub open spec fn settled(before: State, after: State, account: Seq<char>, outcome: Outcome) -> bool {
    match outcome {
        Some((plan, snapshot)) => commits(before, after, account, plan, snapshot),
        None => after == before,
    }
}

/// How far a round over the accounts has come.
#[derive(Clone, Copy, Debug)]
pub struct Round {
    /// The position of the account whose turn it is.
    pub next: usize,
    /// How many accounts failed.
    pub failures: usize,
}

/// One account's turn: the next account's comes after it, whatever became of this one.
pub open spec fn takes_turn(
    config: Config,
    before: (Round, State),
    outcome: Outcome,
    after: (Round, State),
) -> bool {
    &&& after.0.next == before.0.next + 1
    &&& after.0.failures == before.0.failures + (if outcome is None {
        1int
    } else {
        0
    })
    &&& settled(before.1, after.1, config.accounts@[before.0.next as int].0, outcome)
}

impl Round {
    /// The start of a round.
    pub fn begin() -> (round: Round)
        ensures
            round.next == 0,
            round.failures == 0,
    {
        Round { next: 0, failures: 0 }
    }

    /// The position of the account whose turn it is, until all have had theirs.
    pub fn account(&self, config: &Config) -> (index: Option<usize>)
        ensures
            index == (if self.next < config.accounts@.len() {
                Some(self.next)
            } else {
                None
            }),
    {
        if self.next < config.accounts.len() {
            Some(self.next)
        } else {
            None
        }
    }

    /// Ends an account's turn. Once all have had theirs, nothing is left to end.
    pub fn settle(&mut self, config: &Config, state: &mut State, outcome: &Outcome)
        requires
            old(self).failures <= old(self).next,
        ensures
            if old(self).next < config.accounts@.len() {
                takes_turn(
                    *config,
                    (*old(self), *old(state)),
                    *outcome,
                    (*final(self), *final(state)),
                )
            } else {
                *final(self) == *old(self) && *final(state) == *old(state)
            },
            final(self).failures <= final(self).next,
    {
        if self.next >= config.accounts.len() {
            return;
        }
        let name: &String = config.accounts.name_at(self.next);
        match outcome {
            Some((plan, snapshot)) => commit(state, name.as_str(), plan, snapshot),
            None => {
                self.failures = self.failures + 1;
            },
        }
        self.next = self.next + 1;
    }
}

/// How many of the first `n` outcomes are failures.
pub open spec fn failed(outcomes: Seq<Outcome>, n: int) -> int
    decreases n,
{
    if n <= 0 {
        0
    } else if outcomes[n - 1] is None {
        failed(outcomes, n - 1) + 1
    } else {
        failed(outcomes, n - 1)
    }
}

/// A round over the accounts, turn by turn.
pub open spec fn is_round(
    config: Config,
    outcomes: Seq<Outcome>,
    turns: Seq<(Round, State)>,
    n: int,
) -> bool {
    &&& 0 <= n <= config.accounts@.len()
    &&& outcomes.len() >= n
    &&& turns.len() > n
    &&& turns[0].0.next == 0
    &&& turns[0].0.failures == 0
    &&& forall|i: int|
        0 <= i < n ==> takes_turn(config, #[trigger] turns[i], outcomes[i], turns[i + 1])
}

proof fn lemma_turns(
    config: Config,
    outcomes: Seq<Outcome>,
    turns: Seq<(Round, State)>,
    n: int,
    account: Seq<char>,
    from: int,
)
    requires
        is_round(config, outcomes, turns, n),
        0 <= from <= n,
        forall|i: int|
            from <= i < n ==> outcomes[i] is None || (#[trigger] config.accounts@[i]).0 != account,
    ensures
        turns[n].0.next == n,
        turns[n].0.failures == failed(outcomes, n),
        0 <= failed(outcomes, n) <= n,
        lookup(turns[n].1.accounts@, account) == lookup(turns[from].1.accounts@, account),
    decreases n,
{
    if n > 0 {
        if from < n {
            lemma_turns(config, outcomes, turns, n - 1, account, from);
        } else {
            lemma_turns(config, outcomes, turns, n - 1, account, n - 1);
        }
        assert(takes_turn(config, turns[n - 1], outcomes[n - 1], turns[n - 1 + 1]));
        if from < n {
            assert(outcomes[n - 1] is None || config.accounts@[n - 1].0 != account);
        }
    }
}

/// A whole round takes every account in its turn, whatever became of those before it, and counts
/// the failed ones. An account that failed keeps its state, and so does every account that the
/// configuration does not name; one that did not fail has, at the end, the state that its own turn
/// gave it.
pub proof fn law_round(
    config: Config,
    outcomes: Seq<Outcome>,
    turns: Seq<(Round, State)>,
    account: Seq<char>,
)
    requires
        is_round(config, outcomes, turns, config.accounts@.len() as int),
        ascending(config.accounts@),
    ensures
        ({
            let n = config.accounts@.len() as int;
            &&& turns[n].0.next == n
            &&& turns[n].0.failures == failed(outcomes, n)
            &&& failed(outcomes, n) <= n
            &&& (forall|i: int| !named_at(config.accounts@, account, i)) ==> lookup(
                turns[n].1.accounts@,
                account,
            ) == lookup(turns[0].1.accounts@, account)
            &&& forall|i: int| #[trigger]
                named_at(config.accounts@, account, i) ==> (if outcomes[i] is None {
                    lookup(turns[n].1.accounts@, account) == lookup(
                        turns[0].1.accounts@,
                        account,
                    )
                } else {
                    settled(turns[i].1, turns[i + 1].1, account, outcomes[i]) && lookup(turns[n].1.accounts@, account) == lookup(
                        turns[i + 1].1.accounts@,
                        account,
                    ) && prior_samples(turns[i].1, account) == prior_samples(turns[0].1, account)
                })
        }),
{
    let n = config.accounts@.len() as int;
    lemma_turns(config, outcomes, turns, n, account, n);
    if forall|i: int| !named_at(config.accounts@, account, i) {
        assert forall|i: int| 0 <= i < n implies (#[trigger] config.accounts@[i]).0 != account by {
            assert(!named_at(config.accounts@, account, i));
        }
        lemma_turns(config, outcomes, turns, n, account, 0);
    }
    assert forall|i: int| #[trigger] named_at(config.accounts@, account, i) implies (
    if outcomes[i] is None {
        lookup(turns[n].1.accounts@, account) == lookup(turns[0].1.accounts@, account)
    } else {
        settled(turns[i].1, turns[i + 1].1, account, outcomes[i]) && lookup(
            turns[n].1.accounts@,
            account,
        ) == lookup(turns[i + 1].1.accounts@, account) && prior_samples(turns[i].1, account)
            == prior_samples(turns[0].1, account)
    }) by {
        assert forall|j: int| 0 <= j < n && j != i implies (#[trigger] config.accounts@[j]).0
            != account by {
            precedes_irreflexive(account);
            if j < i {
                assert(precedes(config.accounts@[j].0, config.accounts@[i].0));
            } else {
                assert(precedes(config.accounts@[i].0, config.accounts@[j].0));
            }
        }
        lemma_turns(config, outcomes, turns, i, account, 0);
        if outcomes[i] is None {
            lemma_turns(config, outcomes, turns, n, account, 0);
        } else {
            lemma_turns(config, outcomes, turns, n, account, i + 1);
            assert(takes_turn(config, turns[i], outcomes[i], turns[i + 1]));
        }
    }
}

/// What follows a round.
#[derive(Clone, Debug)]
pub enum AfterCycle {
    /// The round was the only one, and went well.
    Stop,
    /// The round was the only one, and failed as the text says.
    Fail(String),
    /// The next round comes after the polling interval.
    Sleep,
}

/// Decides what follows a round in which some accounts failed.
pub fn after_cycle(once: bool, failures: usize) -> (next: AfterCycle)
    ensures
        if !once {
            next is Sleep
        } else if failures == 0 {
            next is Stop
        } else {
            next matches AfterCycle::Fail(text) && text@ == digits(failures as nat)
                + " account(s) failed"@
        },
{
    if !once {
        AfterCycle::Sleep
    } else if failures == 0 {
        AfterCycle::Stop
    } else {
        AfterCycle::Fail(join2(decimal(failures as u64).as_str(), " account(s) failed"))
    }
}

/// Observing only, no fleet is told anything, and what is recorded is the count that runs.
pub proof fn law_observing_mutates_nothing(
    plan: CyclePlan,
    decision: DecisionView,
    actuator: ActuatorConfig,
)
    requires
        follows(plan, decision, actuator, true),
    ensures
        !plan.actuated,
        plan.sample_workers == decision.current_workers,
{
}

/// A fleet without an actuator is told nothing.
pub proof fn law_no_actuator_mutates_nothing(
    plan: CyclePlan,
    decision: DecisionView,
    observe_only: bool,
)
    requires
        follows(plan, decision, ActuatorConfig::Off, observe_only),
    ensures
        !plan.actuated,
{
}

/// No fleet is told to grow on a stale snapshot.
pub proof fn law_stale_round_never_grows(
    plan: CyclePlan,
    account: Seq<char>,
    config: AccountConfig,
    snapshot: QuotaSnapshot,
    prior: Seq<(Seq<char>, WindowSample)>,
    workers: u32,
    now: (i64, u32),
    observe_only: bool,
)
    requires
        is_stale(config.utilization, snapshot, now),
        decided(account, config, snapshot, prior, workers, now) matches Some(decision) && follows(
            plan,
            decision,
            config.fleet.actuator,
            observe_only,
        ),
    ensures
        plan.sample_workers <= workers,
        plan.decision.desired_workers <= workers,
{
    law_stale_never_scales_up(account, config, snapshot, prior, workers, now);
}

/// A quota sample controls only the account that it was taken of: one account's round leaves every
/// other account's decision as it was.
pub proof fn law_accounts_are_isolated(
    before: State,
    after: State,
    account: Seq<char>,
    plan: CyclePlan,
    shown: QuotaSnapshot,
    other: Seq<char>,
    config: AccountConfig,
    snapshot: QuotaSnapshot,
    workers: u32,
    now: (i64, u32),
)
    requires
        commits(before, after, account, plan, shown),
        other != account,
    ensures
        decided(other, config, snapshot, prior_samples(after, other), workers, now) == decided(
            other,
            config,
            snapshot,
            prior_samples(before, other),
            workers,
            now,
        ),
{
    assert(lookup(after.accounts@, other) == lookup(before.accounts@, other));
}

/// A fleet that can be told its target is told it whenever that differs from what runs, be it more
/// or less, and only then; what is recorded is what then runs.
pub proof fn law_every_change_is_told(
    plan: CyclePlan,
    account: Seq<char>,
    config: AccountConfig,
    snapshot: QuotaSnapshot,
    prior: Seq<(Seq<char>, WindowSample)>,
    workers: u32,
    now: (i64, u32),
    observe_only: bool,
)
    requires
        decided(account, config, snapshot, prior, workers, now) matches Some(decision) && follows(
            plan,
            decision,
            config.fleet.actuator,
            observe_only,
        ),
    ensures
        decided(account, config, snapshot, prior, workers, now) matches Some(decision)
            && plan.decision@ == decision,
        !observe_only && !(config.fleet.actuator is Off) && plan.decision.desired_workers > workers
            ==> plan.actuated,
        !observe_only && !(config.fleet.actuator is Off) && plan.decision.desired_workers < workers
            ==> plan.actuated,
        plan.decision.desired_workers == workers ==> !plan.actuated,
        observe_only || config.fleet.actuator is Off ==> !plan.actuated,
        plan.actuated ==> plan.sample_workers == plan.decision.desired_workers,
        !plan.actuated ==> plan.sample_workers == workers,
{
    law_decision_says_what_it_is_of(account, config, snapshot, prior, workers, now);
}

/// What an account's round leaves: its target, and, of a fresh snapshot, a sample of each window
/// with the workers that then run; a stale one changes no sample.
pub proof fn law_commit_keeps_what_was_seen(
    before: State,
    after: State,
    account: Seq<char>,
    plan: CyclePlan,
    snapshot: QuotaSnapshot,
    i: int,
)
    requires
        commits(before, after, account, plan, snapshot),
        0 <= i < snapshot.windows@.len(),
        forall|j: int|
            i < j < snapshot.windows@.len() ==> (#[trigger] snapshot.windows@[j]).id@
                != snapshot.windows@[i].id@,
    ensures
        lookup(after.accounts@, account) matches Some(kept) && {
            &&& kept.last_target == Some(plan.decision.desired_workers)
            &&& plan.decision.stale ==> kept.windows@ == prior_samples(before, account)
            &&& !plan.decision.stale ==> (lookup(
                kept.windows@,
                snapshot.windows@[i].id@,
            ) matches Some(sample) && sample.observed_at == snapshot.observed_at
                && sample.used_fraction == snapshot.windows@[i].used_fraction && sample.resets_at
                == snapshot.windows@[i].resets_at && sample.workers == plan.sample_workers)
        },
        forall|other: Seq<char>|
            other != account ==> #[trigger] lookup(after.accounts@, other) == lookup(
                before.accounts@,
                other,
            ),
{
    let kept = lookup(after.accounts@, account)->0;
    if !plan.decision.stale {
        law_recorded_is_found(
            kept,
            snapshot,
            plan.sample_workers,
            plan.decision.desired_workers,
            i,
        );
    }
}

/// The samples that a round goes by are those that the account's last round kept: after a fresh
/// snapshot its windows, each with the workers that then ran, and no other; after a stale one those
/// that it went by itself. An account without a state has none.
pub proof fn law_next_round_goes_by_the_last(
    before: State,
    after: State,
    account: Seq<char>,
    plan: CyclePlan,
    snapshot: QuotaSnapshot,
    id: Seq<char>,
)
    requires
        commits(before, after, account, plan, snapshot),
    ensures
        lookup(before.accounts@, account) is None ==> prior_samples(before, account).len() == 0,
        plan.decision.stale ==> prior_samples(after, account) == prior_samples(before, account),
        !plan.decision.stale ==> (lookup(prior_samples(after, account), id) matches Some(sample)
            ==> sample.observed_at == snapshot.observed_at && sample.workers == plan.sample_workers
            && exists|i: int|
            0 <= i < snapshot.windows@.len() && (#[trigger] snapshot.windows@[i]).id@ == id
                && sample.used_fraction == snapshot.windows@[i].used_fraction && sample.resets_at
                == snapshot.windows@[i].resets_at),
        !plan.decision.stale ==> (lookup(prior_samples(after, account), id) is None <==> forall|
            i: int,
        |
            0 <= i < snapshot.windows@.len() ==> (#[trigger] snapshot.windows@[i]).id@ != id),
{
    if !plan.decision.stale {
        law_sample_is_of_a_window(snapshot, plan.sample_workers, snapshot.windows@.len() as int, id);
    }
}

/// A turn that was carried out sets the account's target, and a failed one changes no account; only
/// a failed one counts as a failure.
pub proof fn law_turn(
    config: Config,
    before: (Round, State),
    outcome: Outcome,
    after: (Round, State),
)
    requires
        takes_turn(config, before, outcome, after),
    ensures
        outcome is None ==> after.1 == before.1 && after.0.failures == before.0.failures + 1,
        outcome matches Some((plan, snapshot)) ==> after.0.failures == before.0.failures && (lookup(
            after.1.accounts@,
            config.accounts@[before.0.next as int].0,
        ) matches Some(kept) && kept.last_target == Some(plan.decision.desired_workers)
            && if plan.decision.stale {
            kept.windows@ == prior_samples(before.1, config.accounts@[before.0.next as int].0)
        } else {
            forall|i: int|
                0 <= i < snapshot.windows@.len() ==> lookup(
                    kept.windows@,
                    (#[trigger] snapshot.windows@[i]).id@,
                ) is Some
        }),
{
    if let Some((plan, snapshot)) = outcome {
        let account = config.accounts@[before.0.next as int].0;
        if !plan.decision.stale {
            let kept = lookup(after.1.accounts@, account)->0;
            assert forall|i: int| 0 <= i < snapshot.windows@.len() implies lookup(
                kept.windows@,
                (#[trigger] snapshot.windows@[i]).id@,
            ) is Some by {
                law_next_round_goes_by_the_last(
                    before.1,
                    after.1,
                    account,
                    plan,
                    snapshot,
                    snapshot.windows@[i].id@,
                );
            }
        }
    }
}

/// The failures of a round are as many as its outcomes that failed.
pub proof fn law_failures_are_counted(outcomes: Seq<Outcome>)
    ensures
        failed(outcomes, outcomes.len() as int) == outcomes.filter(
            |outcome: Outcome| outcome is None,
        ).len(),
    decreases outcomes.len(),
{
    reveal(Seq::filter);
    if outcomes.len() > 0 {
        law_failures_are_counted(outcomes.drop_last());
        lemma_same_failures(outcomes, outcomes.drop_last(), outcomes.len() - 1);
    }
}

proof fn lemma_same_failures(a: Seq<Outcome>, b: Seq<Outcome>, n: int)
    requires
        n <= a.len(),
        n <= b.len(),
        forall|i: int| 0 <= i < n ==> #[trigger] a[i] == b[i],
    ensures
        failed(a, n) == failed(b, n),
    decreases n,
{
    if n > 0 {
        lemma_same_failures(a, b, n - 1);
        assert(a[n - 1] == b[n - 1]);
    }
}

} // verus!

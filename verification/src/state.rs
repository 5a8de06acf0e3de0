//! What the governor remembers of each account from cycle to cycle.

use crate::double::Double;
use crate::model::{QuotaSnapshot, QuotaWindow};
use crate::name_map::{ascending, lookup, NameMap};
use crate::text::{decimal, digits, join2, join3, join4, law_count_of_digits};
use crate::timestamp::Timestamp;
use vstd::prelude::*;

verus! {

/// The state of all accounts.
#[derive(Clone, Debug)]
pub struct State {
    pub accounts: NameMap<AccountState>,
}

/// The state of one account: the last sample of each window, and the last target.
#[derive(Clone, Debug)]
pub struct AccountState {
    pub windows: NameMap<WindowSample>,
    pub last_target: Option<u32>,
}

/// What was seen of a window, and how many workers burned it from then on.
#[derive(Clone, Copy, Debug)]
pub struct WindowSample {
    pub observed_at: Timestamp,
    pub used_fraction: Double,
    pub resets_at: Timestamp,
    pub workers: u32,
}

impl Default for State {
    fn default() -> (state: State)
        ensures
            state.accounts@.len() == 0,
    {
        State { accounts: NameMap::new() }
    }
}

impl Default for AccountState {
    fn default() -> (state: AccountState)
        ensures
            state.windows@.len() == 0,
            state.last_target is None,
    {
        AccountState { windows: NameMap::new(), last_target: None }
    }
}

/// The sample of one window of a snapshot.
pub open spec fn sample_of(snapshot: QuotaSnapshot, window: QuotaWindow, workers: u32) -> WindowSample {
    WindowSample {
        observed_at: snapshot.observed_at,
        used_fraction: window.used_fraction,
        resets_at: window.resets_at,
        workers,
    }
}

/// The sample of the last of the first `n` windows of a snapshot that has the given id.
pub open spec fn sampled(snapshot: QuotaSnapshot, workers: u32, n: int, id: Seq<char>) -> Option<
    WindowSample,
>
    decreases n,
{
    if n <= 0 {
        None
    } else if snapshot.windows@[n - 1].id@ == id {
        Some(sample_of(snapshot, snapshot.windows@[n - 1], workers))
    } else {
        sampled(snapshot, workers, n - 1, id)
    }
}

/// An account's state holds exactly the samples of a snapshot, and the target.
pub open spec fn records(
    state: AccountState,
    snapshot: QuotaSnapshot,
    workers: u32,
    target: u32,
) -> bool {
    &&& ascending(state.windows@)
    &&& forall|id: Seq<char>| #[trigger]
        lookup(state.windows@, id) == sampled(
            snapshot,
            workers,
            snapshot.windows@.len() as int,
            id,
        )
    &&& state.last_target == Some(target)
}

impl AccountState {
    /// Remembers a snapshot, the workers that go on from it and the target; earlier samples are
    /// dropped.
    pub fn record(&mut self, snapshot: &QuotaSnapshot, workers: u32, target: u32)
        ensures
            records(*final(self), *snapshot, workers, target),
    {
        let mut windows: NameMap<WindowSample> = NameMap::new();
        assert(ascending(windows@));
        for i in 0..snapshot.windows.len()
            invariant
                ascending(windows@),
                forall|id: Seq<char>| #[trigger]
                    lookup(windows@, id) == sampled(*snapshot, workers, i as int, id),
        {
            let window: &QuotaWindow = &snapshot.windows[i];
            windows.insert(
                window.id.clone(),
                WindowSample {
                    observed_at: snapshot.observed_at,
                    used_fraction: window.used_fraction,
                    resets_at: window.resets_at,
                    workers,
                },
            );
        }
        self.windows = windows;
        self.last_target = Some(target);
    }
}

/// The name of a file that takes the place of another once it is complete.
pub open spec fn temporary_name_of(name: Seq<char>, process: u32) -> Seq<char> {
    "."@ + name + "."@ + digits(process as nat) + ".tmp"@
}

/// Names the file that takes the place of another once it is complete; a path without a name of
/// its own goes by `fallback`.
pub fn temporary_name(name: &Option<String>, fallback: &str, process: u32) -> (temporary: String)
    ensures
        temporary@ == temporary_name_of(
            match *name {
                Some(name) => name@,
                None => fallback@,
            },
            process,
        ),
{
    let count: String = decimal(process as u64);
    let stem: String = match name {
        Some(name) => join2(".", name.as_str()),
        None => join2(".", fallback),
    };
    join4(stem.as_str(), ".", count.as_str(), ".tmp")
}

/// Names the file that takes the place of the credentials once it is complete.
pub fn credentials_temporary_name(process: u32) -> (temporary: String)
    ensures
        temporary@ == ".subscription-governor-credentials-"@ + digits(process as nat) + ".tmp"@,
{
    join3(".subscription-governor-credentials-", decimal(process as u64).as_str(), ".tmp")
}

/// Names the file whose lock guards a state.
pub fn lock_path(state_path: &str) -> (path: String)
    ensures
        path@ == state_path@ + ".lock"@,
{
    join2(state_path, ".lock")
}

proof fn lemma_sampled_at(snapshot: QuotaSnapshot, workers: u32, n: int, i: int)
    requires
        0 <= i < n <= snapshot.windows@.len(),
        forall|j: int|
            i < j < n ==> (#[trigger] snapshot.windows@[j]).id@ != snapshot.windows@[i].id@,
    ensures
        sampled(snapshot, workers, n, snapshot.windows@[i].id@) == Some(
            sample_of(snapshot, snapshot.windows@[i], workers),
        ),
    decreases n,
{
    if n - 1 > i {
        assert(snapshot.windows@[n - 1].id@ != snapshot.windows@[i].id@);
        lemma_sampled_at(snapshot, workers, n - 1, i);
    }
}

/// After a snapshot is recorded, each of its windows is found under its id, the last one where an
/// id occurs more than once.
pub proof fn law_recorded_is_found(
    state: AccountState,
    snapshot: QuotaSnapshot,
    workers: u32,
    target: u32,
    i: int,
)
    requires
        records(state, snapshot, workers, target),
        0 <= i < snapshot.windows@.len(),
        forall|j: int|
            i < j < snapshot.windows@.len() ==> (#[trigger] snapshot.windows@[j]).id@
                != snapshot.windows@[i].id@,
    ensures
        lookup(state.windows@, snapshot.windows@[i].id@) == Some(
            sample_of(snapshot, snapshot.windows@[i], workers),
        ),
{
    lemma_sampled_at(snapshot, workers, snapshot.windows@.len() as int, i);
}

proof fn lemma_sampled_none(snapshot: QuotaSnapshot, workers: u32, n: int, id: Seq<char>)
    requires
        n <= snapshot.windows@.len(),
        forall|j: int| 0 <= j < n ==> (#[trigger] snapshot.windows@[j]).id@ != id,
    ensures
        sampled(snapshot, workers, n, id) is None,
    decreases n,
{
    if n > 0 {
        assert(snapshot.windows@[n - 1].id@ != id);
        lemma_sampled_none(snapshot, workers, n - 1, id);
    }
}

/// Recording drops what was known of a window that the snapshot does not show.
pub proof fn law_unseen_is_dropped(
    state: AccountState,
    snapshot: QuotaSnapshot,
    workers: u32,
    target: u32,
    id: Seq<char>,
)
    requires
        records(state, snapshot, workers, target),
        forall|j: int|
            0 <= j < snapshot.windows@.len() ==> (#[trigger] snapshot.windows@[j]).id@ != id,
    ensures
        lookup(state.windows@, id) is None,
{
    lemma_sampled_none(snapshot, workers, snapshot.windows@.len() as int, id);
}

/// The sample of an id is that of a window that has it, and there is one wherever some window does.
pub proof fn law_sample_is_of_a_window(snapshot: QuotaSnapshot, workers: u32, n: int, id: Seq<char>)
    requires
        0 <= n <= snapshot.windows@.len(),
    ensures
        sampled(snapshot, workers, n, id) matches Some(sample) ==> sample.observed_at
            == snapshot.observed_at && sample.workers == workers && exists|i: int|
            0 <= i < n && (#[trigger] snapshot.windows@[i]).id@ == id && sample.used_fraction
                == snapshot.windows@[i].used_fraction && sample.resets_at
                == snapshot.windows@[i].resets_at,
        sampled(snapshot, workers, n, id) is None <==> forall|i: int|
            0 <= i < n ==> (#[trigger] snapshot.windows@[i]).id@ != id,
    decreases n,
{
    if n > 0 {
        law_sample_is_of_a_window(snapshot, workers, n - 1, id);
        assert(snapshot.windows@[n - 1] == snapshot.windows@[n - 1]);
    }
}

/// The file that takes the place of another never has its name, and two processes never write the
/// same one.
pub proof fn law_temporary_is_its_own(name: Seq<char>, process: u32, other: u32)
    ensures
        temporary_name_of(name, process) != name,
        process != other ==> temporary_name_of(name, process) != temporary_name_of(name, other),
{
    reveal_strlit(".");
    reveal_strlit(".tmp");
    let a = temporary_name_of(name, process);
    let b = temporary_name_of(name, other);
    assert(a.len() > name.len());
    if a == b {
        let x = digits(process as nat);
        let y = digits(other as nat);
        assert(a.len() == name.len() + x.len() + 6);
        assert(b.len() == name.len() + y.len() + 6);
        let from = name.len() as int + 2;
        assert(a.subrange(from, from + x.len()) =~= x);
        assert(b.subrange(from, from + y.len()) =~= y);
        law_count_of_digits(process);
        law_count_of_digits(other);
    }
}

} // verus!

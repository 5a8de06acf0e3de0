//! Quota sources: what is asked of a provider, and what its replies mean.

use crate::double::{
    is_finite, is_negative, law_integer_is_exact, law_integer_is_near, law_negative_integer,
    law_one_is_one, law_order_is_of_values,
    law_quotient_is_bounded, law_quotient_is_near, law_quotient_keeps_order,
    law_quotient_of_negative, law_self_quotient_is_one, law_units_of_lesser, lemma_magnitude,
    magnitude, of_integer, one, quotient, reaches, significand_of, step_of, unit_count, units_of,
    value, zero, Double,
};
use crate::json::{
    integer_in, integer_number, integer_value, item_trees, json_from_bytes, json_from_text,
    json_of_bytes, json_of_text, json_pretty, json_written, lemma_ascending_member,
    lemma_member_front, member, member_trees, member_written, natural_in, number_in, object_value,
    open_value, read_bytes, text_in, text_value, value_members, value_tree, write_member,
    write_pretty, write_value, Json, JsonNumber, JsonTree, Node,
};
use crate::model::{QuotaSnapshot, QuotaWindow};
use crate::name_map::{ascending, law_entries_determined, lemma_lookup_at, lookup, named_at, NameMap};
use crate::text::{join2, join3, precedes};
use crate::timestamp::{instant_of, parsed_instant, rfc3339_instant, Timestamp};
use vstd::arithmetic::power2::{
    lemma2_to64, lemma2_to64_rest, lemma_pow2_adds, lemma_pow2_pos, lemma_pow2_strictly_increases,
    pow2,
};
use vstd::prelude::*;

verus! {

/// A window as values.
pub struct WindowReading {
    pub id: Seq<char>,
    pub used_fraction: Double,
    pub resets_at: (i64, u32),
    pub duration_minutes: Option<u64>,
    pub reached: bool,
}

/// What a window shows.
pub open spec fn reading(window: QuotaWindow) -> WindowReading {
    WindowReading {
        id: window.id@,
        used_fraction: window.used_fraction,
        resets_at: window.resets_at@,
        duration_minutes: window.duration_minutes,
        reached: window.reached,
    }
}

/// What windows show, in their order.
pub open spec fn readings(windows: Seq<QuotaWindow>) -> Seq<WindowReading> {
    windows.map_values(|window: QuotaWindow| reading(window))
}

/// What an optional window shows.
pub open spec fn reading_of(window: Option<QuotaWindow>) -> Option<WindowReading> {
    match window {
        Some(window) => Some(reading(window)),
        None => None,
    }
}

/// A JSON number as a double.
pub open spec fn double_of(number: JsonNumber) -> Double {
    match number {
        JsonNumber::Unsigned(n) => of_integer(n as int),
        JsonNumber::Negative(n) => of_integer(n as int),
        JsonNumber::Float(bits) => Double { bits },
    }
}

/// One hundred.
pub open spec fn hundred() -> Double {
    Double { bits: 0x4059_0000_0000_0000 }
}

/// The fraction that a number of percent writes.
pub open spec fn percent_used(percent: JsonNumber) -> Double {
    quotient(double_of(percent), hundred())
}

fn to_double(number: JsonNumber) -> (double: Double)
    ensures
        double == double_of(number),
{
    match number {
        JsonNumber::Unsigned(n) => Double::from_integer(n as i128),
        JsonNumber::Negative(n) => Double::from_integer(n as i128),
        JsonNumber::Float(bits) => Double { bits },
    }
}

fn used_of(percent: JsonNumber) -> (used: Double)
    ensures
        used == percent_used(percent),
{
    to_double(percent).over(Double { bits: 0x4059_0000_0000_0000 })
}

/// The instant that a member writes in RFC 3339.
pub open spec fn instant_in(tree: Option<JsonTree>) -> Option<(i64, u32)> {
    match text_in(tree) {
        Some(text) => parsed_instant(rfc3339_instant(text)),
        None => None,
    }
}

/// The window that a usage entry shows, whose percentage stands under `key` and which resets at
/// the given instant: none where the entry is inactive or lacks what a window needs.
pub open spec fn usage_window_at(
    id: Seq<char>,
    entry: JsonTree,
    key: Seq<char>,
    resets_at: Option<(i64, u32)>,
) -> Option<WindowReading> {
    if member(entry, "is_active"@) == Some(JsonTree::Bool(false)) {
        None
    } else {
        match (number_in(member(entry, key)), resets_at) {
            (Some(percent), Some(resets_at)) => Some(
                WindowReading {
                    id,
                    used_fraction: percent_used(percent),
                    resets_at,
                    duration_minutes: None,
                    reached: reaches(percent_used(percent), one()),
                },
            ),
            _ => None,
        }
    }
}

/// The window that a usage entry shows, whose percentage stands under `key`.
pub open spec fn usage_window(id: Seq<char>, entry: JsonTree, key: Seq<char>) -> Option<
    WindowReading,
> {
    usage_window_at(id, entry, key, instant_in(member(entry, "resets_at"@)))
}

/// Reads an RFC 3339 timestamp.
pub fn parse_timestamp(value: &str) -> (instant: Option<Timestamp>)
    ensures
        match instant {
            Some(t) => parsed_instant(rfc3339_instant(value@)) == Some(t@),
            None => parsed_instant(rfc3339_instant(value@)) is None,
        },
{
    Timestamp::parse(value)
}

/// Reads a usage entry that resets at an instant.
pub fn read_usage_entry(id: &str, value: &Json, key: &str, resets_at: Option<Timestamp>) -> (window:
    Option<QuotaWindow>)
    ensures
        reading_of(window) == usage_window_at(
            id@,
            value.tree(),
            key@,
            match resets_at {
                Some(resets_at) => Some(resets_at@),
                None => None,
            },
        ),
{
    if let Some(active) = value.get("is_active") {
        if let Some(active) = active.as_bool() {
            if !active {
                return None;
            }
        }
    }
    let percent: JsonNumber = match value.get(key) {
        Some(number) => match number.as_number() {
            Some(percent) => percent,
            None => {
                return None;
            },
        },
        None => {
            return None;
        },
    };
    match resets_at {
        Some(resets_at) => Some(
            QuotaWindow {
                id: id.to_owned(),
                used_fraction: used_of(percent),
                resets_at,
                duration_minutes: None,
                reached: used_of(percent).reaches(Double { bits: 0x3ff0_0000_0000_0000 }),
            },
        ),
        None => None,
    }
}

fn parse_usage_entry(id: &str, value: &Json, key: &str) -> (window: Option<QuotaWindow>)
    ensures
        reading_of(window) == usage_window(id@, value.tree(), key@),
{
    let resets_at: Option<Timestamp> = match value.get("resets_at") {
        Some(text) => match text.as_text() {
            Some(text) => parse_timestamp(text.as_str()),
            None => None,
        },
        None => None,
    };
    read_usage_entry(id, value, key, resets_at)
}

/// Reads a window of the older form, whose use stands under `utilization`.
pub fn parse_anthropic_window(id: &str, value: &Json) -> (window: Option<QuotaWindow>)
    ensures
        reading_of(window) == usage_window(id@, value.tree(), "utilization"@),
{
    parse_usage_entry(id, value, "utilization")
}

/// Reads a generic limit, whose use stands under `percent`.
pub fn parse_anthropic_limit(id: &str, value: &Json) -> (window: Option<QuotaWindow>)
    ensures
        reading_of(window) == usage_window(id@, value.tree(), "percent"@),
{
    parse_usage_entry(id, value, "percent")
}

/// Why a quota could not be collected.
#[derive(Clone, Debug)]
pub enum SourceError {
    /// A usage response shows no window.
    NoUsageWindows,
    /// A rate-limit response shows no window.
    NoRateLimitWindows,
    /// A snapshot has no window.
    NoWindows,
    /// A window has no id.
    EmptyWindowId,
    /// The use of the window with this id is not a fraction of its quota.
    UsedOutOfRange(String),
    /// The credentials are no JSON.
    UnreadableCredentials,
    /// The credentials lack a member.
    CredentialsLack(Credential),
    /// The refreshed credentials could not be written as JSON.
    UnwritableCredentials,
    /// The reply to a token refresh is no JSON.
    UnreadableRefresh,
    /// The reply to a token refresh lacks a member.
    RefreshLacks(Credential),
    /// A usage response is no JSON.
    UnreadableUsage,
    /// The Codex server answered its initialization with an error, which is written here.
    InitializationRejected(String),
    /// The Codex server answered the request for rate limits with an error, which is written here.
    RateLimitsRejected(String),
    /// The Codex server answered the request for rate limits without a result.
    ResultOmitted,
}

/// A member of the credentials.
#[derive(Clone, Copy, Debug, PartialEq, Eq, Structural)]
pub enum Credential {
    Account,
    AccessToken,
    RefreshToken,
    ExpiresAt,
}

impl Credential {
    /// The name of the member.
    pub open spec fn key(self) -> Seq<char> {
        match self {
            Credential::Account => "claudeAiOauth"@,
            Credential::AccessToken => "accessToken"@,
            Credential::RefreshToken => "refreshToken"@,
            Credential::ExpiresAt => "expiresAt"@,
        }
    }

    /// Writes the name of the member.
    pub fn name(self) -> (name: &'static str)
        ensures
            name@ == self.key(),
    {
        match self {
            Credential::Account => "claudeAiOauth",
            Credential::AccessToken => "accessToken",
            Credential::RefreshToken => "refreshToken",
            Credential::ExpiresAt => "expiresAt",
        }
    }
}

impl SourceError {
    /// The message for a reader.
    pub open spec fn text(self) -> Seq<char> {
        match self {
            SourceError::NoUsageWindows =>
                "Anthropic usage response contained no usable quota windows"@,
            SourceError::NoRateLimitWindows =>
                "Codex rate-limit response contained no usable quota windows"@,
            SourceError::NoWindows => "quota snapshot has no windows"@,
            SourceError::EmptyWindowId => "quota snapshot has an empty window id"@,
            SourceError::UsedOutOfRange(id) => "quota window "@ + id@
                + " used_fraction must be in [0, 1]"@,
            SourceError::UnreadableCredentials => "failed to parse OAuth credentials"@,
            SourceError::CredentialsLack(credential) => "OAuth credentials are missing "@
                + credential.key(),
            SourceError::UnwritableCredentials => "failed to serialize refreshed credentials"@,
            SourceError::UnreadableRefresh => "Anthropic token refresh returned invalid JSON"@,
            SourceError::RefreshLacks(credential) => "Anthropic token refresh omitted "@
                + credential.key(),
            SourceError::UnreadableUsage => "Anthropic usage endpoint returned invalid JSON"@,
            SourceError::InitializationRejected(error) =>
                "Codex app-server rejected initialization: "@ + error@,
            SourceError::RateLimitsRejected(error) =>
                "Codex app-server rejected the rate-limit request: "@ + error@,
            SourceError::ResultOmitted => "Codex rate-limit response omitted result"@,
        }
    }

    /// Writes the message for a reader.
    pub fn message(&self) -> (text: String)
        ensures
            text@ == self.text(),
    {
        match self {
            SourceError::NoUsageWindows =>
                "Anthropic usage response contained no usable quota windows".to_owned(),
            SourceError::NoRateLimitWindows =>
                "Codex rate-limit response contained no usable quota windows".to_owned(),
            SourceError::NoWindows => "quota snapshot has no windows".to_owned(),
            SourceError::EmptyWindowId => "quota snapshot has an empty window id".to_owned(),
            SourceError::UsedOutOfRange(id) => join3(
                "quota window ",
                id.as_str(),
                " used_fraction must be in [0, 1]",
            ),
            SourceError::UnreadableCredentials => "failed to parse OAuth credentials".to_owned(),
            SourceError::CredentialsLack(credential) => join2(
                "OAuth credentials are missing ",
                credential.name(),
            ),
            SourceError::UnwritableCredentials =>
                "failed to serialize refreshed credentials".to_owned(),
            SourceError::UnreadableRefresh =>
                "Anthropic token refresh returned invalid JSON".to_owned(),
            SourceError::RefreshLacks(credential) => join2(
                "Anthropic token refresh omitted ",
                credential.name(),
            ),
            SourceError::UnreadableUsage =>
                "Anthropic usage endpoint returned invalid JSON".to_owned(),
            SourceError::InitializationRejected(error) => join2(
                "Codex app-server rejected initialization: ",
                error.as_str(),
            ),
            SourceError::RateLimitsRejected(error) => join2(
                "Codex app-server rejected the rate-limit request: ",
                error.as_str(),
            ),
            SourceError::ResultOmitted => "Codex rate-limit response omitted result".to_owned(),
        }
    }
}

/// The ids of the windows that have a member of their own in a usage response.
pub open spec fn is_legacy(id: Seq<char>) -> bool {
    id == "five_hour"@ || id == "seven_day"@ || id == "weekly_scoped"@
}

/// The window that a usage response shows in a member of its own.
pub open spec fn own_reading(payload: JsonTree, id: Seq<char>) -> Option<WindowReading> {
    match member(payload, id) {
        Some(entry) => usage_window(id, entry, "utilization"@),
        None => None,
    }
}

/// The window of the last of the first `n` generic limits that is of the given kind and shows
/// one.
pub open spec fn limit_reading(limits: Seq<JsonTree>, n: int, id: Seq<char>) -> Option<
    WindowReading,
>
    decreases n,
{
    if n <= 0 {
        None
    } else if text_in(member(limits[n - 1], "kind"@)) == Some(id) && usage_window(
        id,
        limits[n - 1],
        "percent"@,
    ) is Some {
        usage_window(id, limits[n - 1], "percent"@)
    } else {
        limit_reading(limits, n - 1, id)
    }
}

/// The generic limits of a usage response.
pub open spec fn limits_in(payload: JsonTree) -> Seq<JsonTree> {
    match member(payload, "limits"@) {
        Some(JsonTree::List(items)) => items,
        _ => Seq::empty(),
    }
}

/// The window that a usage response shows under an id: a generic limit comes before a member of
/// the same name.
pub open spec fn usage_reading(payload: JsonTree, id: Seq<char>) -> Option<WindowReading> {
    let limits = limits_in(payload);
    match limit_reading(limits, limits.len() as int, id) {
        Some(window) => Some(window),
        None => if is_legacy(id) {
            own_reading(payload, id)
        } else {
            None
        },
    }
}

proof fn lemma_limit_reading_id(limits: Seq<JsonTree>, n: int, id: Seq<char>)
    ensures
        limit_reading(limits, n, id) matches Some(window) ==> window.id == id,
    decreases n,
{
    if n > 0 {
        lemma_limit_reading_id(limits, n - 1, id);
    }
}

/// The windows are those of a usage response, each once, in the order of their ids.
pub open spec fn shows_usage(windows: Seq<QuotaWindow>, payload: JsonTree) -> bool {
    &&& forall|i: int, j: int|
        0 <= i < j < windows.len() ==> precedes(
            (#[trigger] windows[i]).id@,
            (#[trigger] windows[j]).id@,
        )
    &&& forall|i: int|
        0 <= i < windows.len() ==> usage_reading(payload, (#[trigger] windows[i]).id@) == Some(
            reading(windows[i]),
        )
    &&& forall|id: Seq<char>| #[trigger]
        usage_reading(payload, id) is Some ==> exists|i: int|
            0 <= i < windows.len() && (#[trigger] windows[i]).id@ == id
}

/// Adds the window that a usage response shows in a member of its own.
fn add_own_window(windows: &mut NameMap<QuotaWindow>, payload: &Json, id: &str)
    requires
        ascending(old(windows)@),
    ensures
        ascending(final(windows)@),
        forall|other: Seq<char>|
            reading_of(#[trigger] lookup(final(windows)@, other)) == (if other == id@ && own_reading(
                payload.tree(),
                id@,
            ) is Some {
                own_reading(payload.tree(), id@)
            } else {
                reading_of(lookup(old(windows)@, other))
            }),
{
    if let Some(entry) = payload.get(id) {
        if let Some(window) = parse_anthropic_window(id, entry) {
            windows.insert(id.to_owned(), window);
        }
    }
}

/// Adds the window of a generic limit.
fn add_limit(windows: &mut NameMap<QuotaWindow>, limit: &Json)
    requires
        ascending(old(windows)@),
    ensures
        ascending(final(windows)@),
        forall|other: Seq<char>|
            reading_of(#[trigger] lookup(final(windows)@, other)) == (if text_in(
                member(limit.tree(), "kind"@),
            ) == Some(other) && usage_window(other, limit.tree(), "percent"@) is Some {
                usage_window(other, limit.tree(), "percent"@)
            } else {
                reading_of(lookup(old(windows)@, other))
            }),
{
    if let Some(kind) = limit.get("kind") {
        if let Some(id) = kind.as_text() {
            if let Some(window) = parse_anthropic_limit(id.as_str(), limit) {
                windows.insert(id.clone(), window);
            }
        }
    }
}

/// Reads a usage response.
pub fn parse_anthropic_usage(payload: &Json, observed_at: Timestamp) -> (result: Result<
    QuotaSnapshot,
    SourceError,
>)
    ensures
        match result {
            Ok(snapshot) => {
                &&& snapshot.observed_at == observed_at
                &&& snapshot.fresh
                &&& snapshot.windows@.len() > 0
                &&& shows_usage(snapshot.windows@, payload.tree())
            },
            Err(error) => {
                &&& error is NoUsageWindows
                &&& forall|id: Seq<char>| #[trigger] usage_reading(payload.tree(), id) is None
            },
        },
{
    let mut windows: NameMap<QuotaWindow> = NameMap::new();
    assert(ascending(windows@));
    let ghost tree = payload.tree();
    add_own_window(&mut windows, payload, "five_hour");
    add_own_window(&mut windows, payload, "seven_day");
    add_own_window(&mut windows, payload, "weekly_scoped");
    let ghost own = windows@;
    assert forall|id: Seq<char>| reading_of(#[trigger] lookup(own, id)) == (if is_legacy(id) {
        own_reading(tree, id)
    } else {
        None
    }) by {}
    if let Some(value) = payload.get("limits") {
        if let Some(limits) = value.as_list() {
            let ghost trees = limits_in(tree);
            for i in 0..limits.len()
                invariant
                    ascending(windows@),
                    trees == item_trees(limits@),
                    forall|id: Seq<char>|
                        reading_of(#[trigger] lookup(windows@, id)) == (match limit_reading(
                            trees,
                            i as int,
                            id,
                        ) {
                            Some(window) => Some(window),
                            None => reading_of(lookup(own, id)),
                        }),
            {
                assert(trees[i as int] == limits@[i as int].tree());
                add_limit(&mut windows, &limits[i]);
            }
        }
    }
    assert forall|id: Seq<char>| reading_of(#[trigger] lookup(windows@, id)) == usage_reading(
        tree,
        id,
    ) by {
        assert(reading_of(lookup(own, id)) == (if is_legacy(id) {
            own_reading(tree, id)
        } else {
            None
        }));
    }
    let ghost entries = windows@;
    if windows.len() == 0 {
        assert forall|id: Seq<char>| #[trigger] usage_reading(tree, id) is None by {
            assert(lookup(entries, id) is None);
        }
        return Err(SourceError::NoUsageWindows);
    }
    let windows: Vec<QuotaWindow> = windows.into_values();
    proof {
        assert forall|i: int| 0 <= i < entries.len() implies (#[trigger] entries[i]).0
            == windows@[i].id@ && usage_reading(tree, windows@[i].id@) == Some(
            reading(windows@[i]),
        ) by {
            lemma_lookup_at(entries, entries[i].0, i);
            lemma_limit_reading_id(limits_in(tree), limits_in(tree).len() as int, entries[i].0);
            assert(reading_of(lookup(entries, entries[i].0)) == usage_reading(tree, entries[i].0));
        }
        assert forall|i: int, j: int| 0 <= i < j < windows@.len() implies precedes(
            (#[trigger] windows@[i]).id@,
            (#[trigger] windows@[j]).id@,
        ) by {
            assert(precedes(entries[i].0, entries[j].0));
        }
        assert forall|id: Seq<char>| #[trigger] usage_reading(tree, id) is Some implies exists|
            i: int,
        | 0 <= i < windows@.len() && (#[trigger] windows@[i]).id@ == id by {
            assert(reading_of(lookup(entries, id)) is Some);
            let i = choose|i: int| named_at(entries, id, i);
            assert(entries[i].0 == windows@[i].id@);
        }
        assert forall|i: int| 0 <= i < windows@.len() implies usage_reading(
            tree,
            (#[trigger] windows@[i]).id@,
        ) == Some(reading(windows@[i])) by {
            assert(entries[i].0 == windows@[i].id@);
        }
    }
    Ok(QuotaSnapshot { observed_at, fresh: true, windows })
}

spec fn entries_of(windows: Seq<QuotaWindow>) -> Seq<(Seq<char>, WindowReading)> {
    windows.map_values(|window: QuotaWindow| (window.id@, reading(window)))
}

proof fn lemma_usage_entries(windows: Seq<QuotaWindow>, payload: JsonTree, id: Seq<char>)
    requires
        shows_usage(windows, payload),
    ensures
        ascending(entries_of(windows)),
        lookup(entries_of(windows), id) == usage_reading(payload, id),
{
    let entries = entries_of(windows);
    assert forall|i: int, j: int| 0 <= i < j < entries.len() implies precedes(
        (#[trigger] entries[i]).0,
        (#[trigger] entries[j]).0,
    ) by {
        assert(precedes(windows[i].id@, windows[j].id@));
    }
    if usage_reading(payload, id) is Some {
        let i = choose|i: int| 0 <= i < windows.len() && (#[trigger] windows[i]).id@ == id;
        assert(named_at(entries, id, i));
        lemma_lookup_at(entries, id, i);
    } else if exists|i: int| named_at(entries, id, i) {
        let i = choose|i: int| named_at(entries, id, i);
        assert(windows[i].id@ == id);
    }
}

/// A usage response alone determines the windows that are read from it: nothing else, such as the
/// token that it was asked for with, can find its way into them.
pub proof fn law_usage_is_determined(
    a: Seq<QuotaWindow>,
    b: Seq<QuotaWindow>,
    payload: JsonTree,
)
    requires
        shows_usage(a, payload),
        shows_usage(b, payload),
    ensures
        readings(a) == readings(b),
{
    let x = entries_of(a);
    let y = entries_of(b);
    lemma_usage_entries(a, payload, Seq::empty());
    lemma_usage_entries(b, payload, Seq::empty());
    assert forall|id: Seq<char>| #[trigger] lookup(x, id) == lookup(y, id) by {
        lemma_usage_entries(a, payload, id);
        lemma_usage_entries(b, payload, id);
    }
    law_entries_determined(x, y);
    assert forall|i: int| 0 <= i < a.len() implies readings(a)[i] == readings(b)[i] by {
        assert(x[i] == y[i]);
    }
    assert(x.len() == a.len() && y.len() == b.len());
    assert(readings(a) == readings(b));
}

/// A generic limit that shows a window supersedes the member of the same name.
pub proof fn law_generic_limit_supersedes(payload: JsonTree, i: int, id: Seq<char>)
    requires
        0 <= i < limits_in(payload).len(),
        text_in(member(limits_in(payload)[i], "kind"@)) == Some(id),
        usage_window(id, limits_in(payload)[i], "percent"@) is Some,
        forall|j: int|
            i < j < limits_in(payload).len() ==> text_in(
                member(#[trigger] limits_in(payload)[j], "kind"@),
            ) != Some(id),
    ensures
        usage_reading(payload, id) == usage_window(id, limits_in(payload)[i], "percent"@),
{
    lemma_limit_reading_at(limits_in(payload), limits_in(payload).len() as int, i, id);
}

proof fn lemma_limit_reading_at(limits: Seq<JsonTree>, n: int, i: int, id: Seq<char>)
    requires
        0 <= i < n <= limits.len(),
        text_in(member(limits[i], "kind"@)) == Some(id),
        usage_window(id, limits[i], "percent"@) is Some,
        forall|j: int| i < j < n ==> text_in(member(#[trigger] limits[j], "kind"@)) != Some(id),
    ensures
        limit_reading(limits, n, id) == usage_window(id, limits[i], "percent"@),
    decreases n,
{
    if n - 1 > i {
        assert(text_in(member(limits[n - 1], "kind"@)) != Some(id));
        lemma_limit_reading_at(limits, n - 1, i, id);
    }
}

/// The window of a rate-limit bucket under a name.
pub open spec fn rate_window(limit_id: Seq<char>, bucket: JsonTree, name: Seq<char>) -> Option<
    WindowReading,
> {
    match member(bucket, name) {
        Some(window) => match (
            number_in(member(window, "usedPercent"@)),
            integer_in(member(window, "resetsAt"@)),
        ) {
            (Some(percent), Some(epoch)) => match instant_of(epoch, 0) {
                Some(resets_at) => Some(
                    WindowReading {
                        id: limit_id + "."@ + name,
                        used_fraction: percent_used(percent),
                        resets_at,
                        duration_minutes: natural_in(member(window, "windowDurationMins"@)),
                        reached: reaches(double_of(percent), hundred()),
                    },
                ),
                None => None,
            },
            _ => None,
        },
        None => None,
    }
}

/// What an optional reading adds to a list.
pub open spec fn listed(window: Option<WindowReading>) -> Seq<WindowReading> {
    match window {
        Some(window) => seq![window],
        None => Seq::empty(),
    }
}

/// The windows of a rate-limit bucket: its primary one, and then its secondary one.
pub open spec fn bucket_readings(limit_id: Seq<char>, bucket: JsonTree) -> Seq<WindowReading> {
    listed(rate_window(limit_id, bucket, "primary"@)) + listed(
        rate_window(limit_id, bucket, "secondary"@),
    )
}

/// The windows of the first `n` buckets.
pub open spec fn buckets_readings(buckets: Seq<(Seq<char>, JsonTree)>, n: int) -> Seq<WindowReading>
    decreases n,
{
    if n <= 0 {
        Seq::empty()
    } else {
        buckets_readings(buckets, n - 1) + bucket_readings(buckets[n - 1].0, buckets[n - 1].1)
    }
}

/// The id of the one bucket of the older form.
pub open spec fn single_limit_id(limit: JsonTree) -> Seq<char> {
    match text_in(member(limit, "limitId"@)) {
        Some(id) => id,
        None => "default"@,
    }
}

/// The windows of a rate-limit result. The one bucket of the older form is a fallback.
pub open spec fn rate_limit_readings(result: JsonTree) -> Seq<WindowReading> {
    match member(result, "rateLimitsByLimitId"@) {
        Some(JsonTree::Object(buckets)) => buckets_readings(buckets, buckets.len() as int),
        _ => match member(result, "rateLimits"@) {
            Some(limit) => bucket_readings(single_limit_id(limit), limit),
            None => Seq::empty(),
        },
    }
}

fn parse_rate_window(limit_id: &str, bucket: &Json, name: &str) -> (window: Option<QuotaWindow>)
    ensures
        reading_of(window) == rate_window(limit_id@, bucket.tree(), name@),
{
    let window: &Json = match bucket.get(name) {
        Some(window) => window,
        None => {
            return None;
        },
    };
    let percent: JsonNumber = match window.get("usedPercent") {
        Some(number) => match number.as_number() {
            Some(percent) => percent,
            None => {
                return None;
            },
        },
        None => {
            return None;
        },
    };
    let resets_at: Timestamp = match window.get("resetsAt") {
        Some(number) => match number.as_i64() {
            Some(epoch) => match Timestamp::new(epoch, 0) {
                Some(resets_at) => resets_at,
                None => {
                    return None;
                },
            },
            None => {
                return None;
            },
        },
        None => {
            return None;
        },
    };
    let duration_minutes: Option<u64> = match window.get("windowDurationMins") {
        Some(number) => number.as_u64(),
        None => None,
    };
    Some(
        QuotaWindow {
            id: join3(limit_id, ".", name),
            used_fraction: used_of(percent),
            resets_at,
            duration_minutes,
            reached: to_double(percent).reaches(Double { bits: 0x4059_0000_0000_0000 }),
        },
    )
}

/// Reads the windows of a rate-limit bucket.
pub fn parse_codex_bucket(limit_id: &str, bucket: &Json, output: &mut Vec<QuotaWindow>)
    ensures
        readings(final(output)@) == readings(old(output)@) + bucket_readings(
            limit_id@,
            bucket.tree(),
        ),
{
    if let Some(window) = parse_rate_window(limit_id, bucket, "primary") {
        output.push(window);
    }
    assert(readings(output@) == readings(old(output)@) + listed(
        rate_window(limit_id@, bucket.tree(), "primary"@),
    ));
    if let Some(window) = parse_rate_window(limit_id, bucket, "secondary") {
        output.push(window);
    }
}

/// Reads a rate-limit result.
pub fn parse_codex_rate_limits(result: &Json, observed_at: Timestamp) -> (snapshot: Result<
    QuotaSnapshot,
    SourceError,
>)
    ensures
        match snapshot {
            Ok(snapshot) => {
                &&& snapshot.observed_at == observed_at
                &&& snapshot.fresh
                &&& snapshot.windows@.len() > 0
                &&& readings(snapshot.windows@) == rate_limit_readings(result.tree())
            },
            Err(error) => error is NoRateLimitWindows && rate_limit_readings(
                result.tree(),
            ).len() == 0,
        },
{
    let mut windows: Vec<QuotaWindow> = Vec::new();
    let by_id: Option<&Vec<(String, Json)>> = match result.get("rateLimitsByLimitId") {
        Some(value) => value.as_members(),
        None => None,
    };
    if let Some(buckets) = by_id {
        let ghost trees = member_trees(buckets@);
        for i in 0..buckets.len()
            invariant
                trees == member_trees(buckets@),
                readings(windows@) == buckets_readings(trees, i as int),
        {
            assert(trees[i as int] == (buckets@[i as int].0@, buckets@[i as int].1.tree()));
            parse_codex_bucket(buckets[i].0.as_str(), &buckets[i].1, &mut windows);
        }
    } else if let Some(limit) = result.get("rateLimits") {
        let id: Option<&String> = match limit.get("limitId") {
            Some(value) => value.as_text(),
            None => None,
        };
        match id {
            Some(id) => parse_codex_bucket(id.as_str(), limit, &mut windows),
            None => parse_codex_bucket("default", limit, &mut windows),
        }
    }
    assert(readings(windows@) == rate_limit_readings(result.tree()));
    assert(readings(windows@).len() == windows@.len());
    if windows.len() == 0 {
        return Err(SourceError::NoRateLimitWindows);
    }
    Ok(QuotaSnapshot { observed_at, fresh: true, windows })
}

/// Every bucket of a rate-limit result is retained: each window that one shows is among the
/// windows of the whole.
pub proof fn law_every_bucket_is_retained(result: JsonTree, i: int, name: Seq<char>)
    requires
        member(result, "rateLimitsByLimitId"@) matches Some(JsonTree::Object(buckets)) && 0 <= i
            < buckets.len() && (name == "primary"@ || name == "secondary"@) && rate_window(
            buckets[i].0,
            buckets[i].1,
            name,
        ) is Some,
    ensures
        member(result, "rateLimitsByLimitId"@) matches Some(JsonTree::Object(buckets))
            && rate_limit_readings(result).contains(
            rate_window(buckets[i].0, buckets[i].1, name)->0,
        ),
{
    let buckets = member(result, "rateLimitsByLimitId"@)->0->Object_0;
    lemma_bucket_retained(buckets, buckets.len() as int, i, name);
}

proof fn lemma_bucket_retained(
    buckets: Seq<(Seq<char>, JsonTree)>,
    n: int,
    i: int,
    name: Seq<char>,
)
    requires
        0 <= i < n <= buckets.len(),
        name == "primary"@ || name == "secondary"@,
        rate_window(buckets[i].0, buckets[i].1, name) is Some,
    ensures
        buckets_readings(buckets, n).contains(rate_window(buckets[i].0, buckets[i].1, name)->0),
    decreases n,
{
    let before = buckets_readings(buckets, n - 1);
    let last = bucket_readings(buckets[n - 1].0, buckets[n - 1].1);
    let window = rate_window(buckets[i].0, buckets[i].1, name)->0;
    if i == n - 1 {
        let primary = listed(rate_window(buckets[i].0, buckets[i].1, "primary"@));
        let k = if name == "primary"@ {
            0
        } else {
            primary.len() as int
        };
        assert(last[k] == window);
        assert((before + last)[before.len() + k] == window);
    } else {
        lemma_bucket_retained(buckets, n - 1, i, name);
        let k = choose|k: int| 0 <= k < before.len() && before[k] == window;
        assert((before + last)[k] == window);
    }
}

/// The window's use is a fraction of its quota.
pub open spec fn used_in_range(used: Double) -> bool {
    reaches(used, zero()) && reaches(one(), used)
}

/// A window has an id, and its use is a fraction of its quota.
pub open spec fn sound_window(window: QuotaWindow) -> bool {
    window.id@.len() > 0 && used_in_range(window.used_fraction)
}

/// A snapshot has windows, all of them sound.
pub open spec fn sound_snapshot(snapshot: QuotaSnapshot) -> bool {
    &&& snapshot.windows@.len() > 0
    &&& forall|i: int|
        0 <= i < snapshot.windows@.len() ==> sound_window(#[trigger] snapshot.windows@[i])
}

/// The error speaks of the window at `i`, the first that is not sound.
pub open spec fn blames(error: SourceError, windows: Seq<QuotaWindow>, i: int) -> bool {
    &&& 0 <= i < windows.len()
    &&& !sound_window(windows[i])
    &&& forall|j: int| 0 <= j < i ==> sound_window(#[trigger] windows[j])
    &&& if windows[i].id@.len() == 0 {
        error is EmptyWindowId
    } else {
        error matches SourceError::UsedOutOfRange(id) && id@ == windows[i].id@
    }
}

/// Hands a snapshot on if it is sound.
pub fn validate_snapshot(snapshot: QuotaSnapshot) -> (result: Result<QuotaSnapshot, SourceError>)
    ensures
        match result {
            Ok(checked) => checked == snapshot && sound_snapshot(snapshot),
            Err(error) => if snapshot.windows@.len() == 0 {
                error is NoWindows
            } else {
                exists|i: int| blames(error, snapshot.windows@, i)
            },
        },
{
    if snapshot.windows.len() == 0 {
        return Err(SourceError::NoWindows);
    }
    for i in 0..snapshot.windows.len()
        invariant
            forall|j: int| 0 <= j < i ==> sound_window(#[trigger] snapshot.windows@[j]),
            snapshot.windows@.len() > 0,
    {
        let window: &QuotaWindow = &snapshot.windows[i];
        if window.id.as_str().is_empty() {
            let error: SourceError = SourceError::EmptyWindowId;
            assert(blames(error, snapshot.windows@, i as int));
            return Err(error);
        }
        let in_range: bool = window.used_fraction.reaches(Double { bits: 0 }) && Double {
            bits: 0x3ff0_0000_0000_0000,
        }.reaches(window.used_fraction);
        if !in_range {
            let error: SourceError = SourceError::UsedOutOfRange(window.id.clone());
            assert(blames(error, snapshot.windows@, i as int));
            return Err(error);
        }
    }
    Ok(snapshot)
}

/// How long before its expiry a token is refreshed, in milliseconds.
pub const REFRESH_THRESHOLD_MILLIS: i64 = 300_000;

/// What is done to get a token that can be used.
#[derive(Clone, Debug)]
pub enum TokenStep {
    /// The access token is good.
    Use(String),
    /// The refresh token is to be traded in for new ones.
    Refresh(String),
}

/// The text that a member holds, unless it is empty.
pub open spec fn filled_text(tree: JsonTree, name: Seq<char>) -> Option<Seq<char>> {
    match text_in(member(tree, name)) {
        Some(text) => if text.len() > 0 {
            Some(text)
        } else {
            None
        },
        None => None,
    }
}

fn get_filled_text(json: &Json, name: &str) -> (text: Option<String>)
    ensures
        match text {
            Some(text) => filled_text(json.tree(), name@) == Some(text@),
            None => filled_text(json.tree(), name@) is None,
        },
{
    match json.get(name) {
        Some(value) => match value.as_text() {
            Some(text) => if text.as_str().is_empty() {
                None
            } else {
                Some(text.clone())
            },
            None => None,
        },
        None => None,
    }
}

/// The integer that a member holds.
pub open spec fn integer_at(tree: JsonTree, name: Seq<char>) -> Option<i64> {
    integer_in(member(tree, name))
}

fn get_integer(json: &Json, name: &str) -> (value: Option<i64>)
    ensures
        value == integer_at(json.tree(), name@),
{
    match json.get(name) {
        Some(value) => value.as_i64(),
        None => None,
    }
}

/// The account in the credentials, if there is one.
pub open spec fn account_in(credentials: JsonTree) -> Option<JsonTree> {
    match member(credentials, "claudeAiOauth"@) {
        Some(account) => if account is Object {
            Some(account)
        } else {
            None
        },
        None => None,
    }
}

/// A token is due for a refresh when it expires within the threshold.
pub open spec fn refresh_due(now_milliseconds: int, expires_at: i64) -> bool {
    now_milliseconds + REFRESH_THRESHOLD_MILLIS >= expires_at
}

/// The step is what the credentials call for at an instant.
pub open spec fn calls_for(
    credentials: JsonTree,
    now_milliseconds: int,
    step: Result<TokenStep, SourceError>,
) -> bool {
    match account_in(credentials) {
        None => step == Err::<TokenStep, SourceError>(
            SourceError::CredentialsLack(Credential::Account),
        ),
        Some(account) => match integer_at(account, "expiresAt"@) {
            None => step == Err::<TokenStep, SourceError>(
                SourceError::CredentialsLack(Credential::ExpiresAt),
            ),
            Some(expires_at) => if refresh_due(now_milliseconds, expires_at) {
                match filled_text(account, "refreshToken"@) {
                    Some(token) => step matches Ok(TokenStep::Refresh(text)) && text@ == token,
                    None => step == Err::<TokenStep, SourceError>(
                        SourceError::CredentialsLack(Credential::RefreshToken),
                    ),
                }
            } else {
                match filled_text(account, "accessToken"@) {
                    Some(token) => step matches Ok(TokenStep::Use(text)) && text@ == token,
                    None => step == Err::<TokenStep, SourceError>(
                        SourceError::CredentialsLack(Credential::AccessToken),
                    ),
                }
            },
        },
    }
}

/// Decides whether the access token can be used or is to be refreshed first.
pub fn plan_token(credentials: &Json, now: Timestamp) -> (step: Result<TokenStep, SourceError>)
    ensures
        calls_for(
            credentials.tree(),
            now@.0 * 1000 + now@.1 / 1_000_000,
            step,
        ),
{
    let account: &Json = match credentials.get("claudeAiOauth") {
        Some(account) => match account.as_members() {
            Some(_) => account,
            None => {
                return Err(SourceError::CredentialsLack(Credential::Account));
            },
        },
        None => {
            return Err(SourceError::CredentialsLack(Credential::Account));
        },
    };
    let expires_at: i64 = match get_integer(account, "expiresAt") {
        Some(expires_at) => expires_at,
        None => {
            return Err(SourceError::CredentialsLack(Credential::ExpiresAt));
        },
    };
    if now.epoch_milliseconds() + REFRESH_THRESHOLD_MILLIS >= expires_at {
        match get_filled_text(account, "refreshToken") {
            Some(token) => Ok(TokenStep::Refresh(token)),
            None => Err(SourceError::CredentialsLack(Credential::RefreshToken)),
        }
    } else {
        match get_filled_text(account, "accessToken") {
            Some(token) => Ok(TokenStep::Use(token)),
            None => Err(SourceError::CredentialsLack(Credential::AccessToken)),
        }
    }
}

/// The tokens that a refresh brings.
#[derive(Clone, Debug)]
pub struct Tokens {
    pub access: String,
    pub refresh: String,
    pub expires_at: i64,
}

/// The tokens are those of a refresh's reply.
pub open spec fn brings(reply: JsonTree, tokens: Result<Tokens, SourceError>) -> bool {
    match filled_text(reply, "accessToken"@) {
        None => tokens == Err::<Tokens, SourceError>(
            SourceError::RefreshLacks(Credential::AccessToken),
        ),
        Some(access) => match filled_text(reply, "refreshToken"@) {
            None => tokens == Err::<Tokens, SourceError>(
                SourceError::RefreshLacks(Credential::RefreshToken),
            ),
            Some(refresh) => match integer_at(reply, "expiresAt"@) {
                None => tokens == Err::<Tokens, SourceError>(
                    SourceError::RefreshLacks(Credential::ExpiresAt),
                ),
                Some(expires_at) => tokens matches Ok(tokens) && tokens.access@ == access
                    && tokens.refresh@ == refresh && tokens.expires_at == expires_at,
            },
        },
    }
}

/// Reads the tokens in a refresh's reply.
pub fn read_tokens(reply: &Json) -> (tokens: Result<Tokens, SourceError>)
    ensures
        brings(reply.tree(), tokens),
{
    let access: String = match get_filled_text(reply, "accessToken") {
        Some(access) => access,
        None => {
            return Err(SourceError::RefreshLacks(Credential::AccessToken));
        },
    };
    let refresh: String = match get_filled_text(reply, "refreshToken") {
        Some(refresh) => refresh,
        None => {
            return Err(SourceError::RefreshLacks(Credential::RefreshToken));
        },
    };
    match get_integer(reply, "expiresAt") {
        Some(expires_at) => Ok(Tokens { access, refresh, expires_at }),
        None => Err(SourceError::RefreshLacks(Credential::ExpiresAt)),
    }
}

/// A member of the account after a refresh: a token that it brought, else what was there before.
pub open spec fn refreshed_member(account: JsonTree, tokens: Tokens, name: Seq<char>) -> Option<
    JsonTree,
> {
    if name == "expiresAt"@ {
        Some(JsonTree::Number(integer_number(tokens.expires_at)))
    } else if name == "refreshToken"@ {
        Some(JsonTree::Text(tokens.refresh@))
    } else if name == "accessToken"@ {
        Some(JsonTree::Text(tokens.access@))
    } else {
        member(account, name)
    }
}

/// An object whose members stand in the order of their names.
pub open spec fn is_sorted_object(tree: JsonTree) -> bool {
    tree matches JsonTree::Object(members) && ascending(members)
}

/// Credentials after a refresh: the account has the new tokens, and every other member of it and
/// of the credentials is as before.
pub open spec fn refreshed(before: JsonTree, after: JsonTree, tokens: Tokens) -> bool {
    &&& is_sorted_object(after)
    &&& forall|name: Seq<char>|
        name != "claudeAiOauth"@ ==> #[trigger] member(after, name) == member(before, name)
    &&& member(after, "claudeAiOauth"@) matches Some(account) && is_sorted_object(account)
        && forall|name: Seq<char>| #[trigger]
        member(account, name) == refreshed_member(account_in(before)->0, tokens, name)
}

/// The values of a map's entries.
spec fn entry_trees(entries: Seq<(Seq<char>, serde_json::Value)>) -> Seq<(Seq<char>, JsonTree)> {
    entries.map_values(|entry: (Seq<char>, serde_json::Value)| (entry.0, value_tree(entry.1)))
}

spec fn tree_in(value: Option<serde_json::Value>) -> Option<JsonTree> {
    match value {
        Some(value) => Some(value_tree(value)),
        None => None,
    }
}

proof fn lemma_entry_trees(entries: Seq<(Seq<char>, serde_json::Value)>, name: Seq<char>)
    requires
        ascending(entries),
    ensures
        ascending(entry_trees(entries)),
        member(JsonTree::Object(entry_trees(entries)), name) == tree_in(lookup(entries, name)),
{
    let trees = entry_trees(entries);
    assert forall|i: int, j: int| 0 <= i < j < trees.len() implies precedes(
        (#[trigger] trees[i]).0,
        (#[trigger] trees[j]).0,
    ) by {
        assert(precedes(entries[i].0, entries[j].0));
    }
    lemma_ascending_member(trees, name);
    if exists|i: int| named_at(entries, name, i) {
        let i = choose|i: int| named_at(entries, name, i);
        assert(named_at(trees, name, i));
        lemma_lookup_at(entries, name, i);
        lemma_lookup_at(trees, name, i);
    } else if exists|i: int| named_at(trees, name, i) {
        let i = choose|i: int| named_at(trees, name, i);
        assert(named_at(entries, name, i));
    }
}

/// The members by name; of two with the same name, the first.
fn by_name(members: Vec<(String, serde_json::Value)>) -> (map: NameMap<serde_json::Value>)
    ensures
        ascending(map@),
        forall|name: Seq<char>|
            tree_in(#[trigger] lookup(map@, name)) == member(
                JsonTree::Object(value_members(members@)),
                name,
            ),
{
    let ghost trees = value_members(members@);
    let mut rest: Vec<(String, serde_json::Value)> = members;
    let mut map: NameMap<serde_json::Value> = NameMap::new();
    assert(ascending(map@));
    assert(trees.skip(rest@.len() as int) == Seq::<(Seq<char>, JsonTree)>::empty());
    while rest.len() > 0
        invariant
            rest@.len() <= trees.len(),
            forall|i: int|
                0 <= i < rest@.len() ==> #[trigger] trees[i] == (
                    rest@[i].0@,
                    value_tree(rest@[i].1),
                ),
            ascending(map@),
            forall|name: Seq<char>|
                tree_in(#[trigger] lookup(map@, name)) == member(
                    JsonTree::Object(trees.skip(rest@.len() as int)),
                    name,
                ),
        decreases rest@.len(),
    {
        let ghost at = rest@.len() - 1;
        let ghost before = map@;
        if let Some((name, value)) = rest.pop() {
            let ghost key = name@;
            map.insert(name, value);
            proof {
                assert(trees[at] == (key, value_tree(value)));
                assert(trees.skip(at) == seq![trees[at]] + trees.skip(at + 1));
                assert forall|other: Seq<char>|
                    tree_in(#[trigger] lookup(map@, other)) == member(
                        JsonTree::Object(trees.skip(at)),
                        other,
                    ) by {
                    lemma_member_front(trees[at], trees.skip(at + 1), other);
                    assert(tree_in(lookup(before, other)) == member(
                        JsonTree::Object(trees.skip(at + 1)),
                        other,
                    ));
                }
            }
        }
    }
    assert(trees.skip(0) == trees);
    map
}

/// An object of a map's entries.
fn object_of(map: NameMap<serde_json::Value>) -> (value: serde_json::Value)
    ensures
        value_tree(value) == JsonTree::Object(entry_trees(map@)),
        ascending(map@),
{
    let ghost entries = map@;
    let members: Vec<(String, serde_json::Value)> = map.into_entries();
    proof {
        assert(value_members(members@) == entry_trees(entries));
        lemma_entry_trees(entries, Seq::empty());
    }
    object_value(members)
}

/// The text is what the file of the credentials holds after a refresh.
pub open spec fn writes_refreshed(
    credentials: Option<JsonTree>,
    tokens: Tokens,
    text: Result<String, SourceError>,
) -> bool {
    match credentials {
        None => text == Err::<String, SourceError>(SourceError::UnreadableCredentials),
        Some(before) => if account_in(before) is None {
            text == Err::<String, SourceError>(SourceError::CredentialsLack(Credential::Account))
        } else {
            exists|after: JsonTree| #[trigger]
                refreshed(before, after, tokens) && match json_pretty(after) {
                    Some(pretty) => text matches Ok(text) && text@ == pretty + "\n"@,
                    None => text == Err::<String, SourceError>(SourceError::UnwritableCredentials),
                }
        },
    }
}

/// Writes the credentials with new tokens, as their file holds them.
pub fn write_refreshed(credentials: &Vec<u8>, tokens: &Tokens) -> (text: Result<
    String,
    SourceError,
>)
    ensures
        writes_refreshed(json_of_bytes(credentials@), *tokens, text),
{
    let value: serde_json::Value = match read_bytes(credentials) {
        Ok(value) => value,
        Err(_) => {
            return Err(SourceError::UnreadableCredentials);
        },
    };
    let ghost before = value_tree(value);
    let mut top: NameMap<serde_json::Value> = match open_value(value) {
        Node::Object(members) => by_name(members),
        _ => {
            return Err(SourceError::CredentialsLack(Credential::Account));
        },
    };
    let ghost all = top@;
    let mut account: NameMap<serde_json::Value> = match top.remove("claudeAiOauth") {
        Some(value) => match open_value(value) {
            Node::Object(members) => by_name(members),
            _ => {
                assert(tree_in(lookup(all, "claudeAiOauth"@)) == member(before, "claudeAiOauth"@));
                return Err(SourceError::CredentialsLack(Credential::Account));
            },
        },
        None => {
            assert(tree_in(lookup(all, "claudeAiOauth"@)) == member(before, "claudeAiOauth"@));
            return Err(SourceError::CredentialsLack(Credential::Account));
        },
    };
    assert(tree_in(lookup(all, "claudeAiOauth"@)) == member(before, "claudeAiOauth"@));
    let ghost held = account@;
    account.insert("accessToken".to_owned(), text_value(tokens.access.clone()));
    account.insert("refreshToken".to_owned(), text_value(tokens.refresh.clone()));
    account.insert("expiresAt".to_owned(), integer_value(tokens.expires_at));
    let ghost kept = account@;
    let inner: serde_json::Value = object_of(account);
    let ghost inner_tree = value_tree(inner);
    top.insert("claudeAiOauth".to_owned(), inner);
    let ghost written = top@;
    let value: serde_json::Value = object_of(top);
    let ghost after = value_tree(value);
    proof {
        assert forall|name: Seq<char>| #[trigger]
            member(inner_tree, name) == refreshed_member(account_in(before)->0, *tokens, name) by {
            lemma_entry_trees(kept, name);
            assert(tree_in(lookup(held, name)) == member(account_in(before)->0, name));
        }
        lemma_entry_trees(kept, Seq::empty());
        lemma_entry_trees(written, "claudeAiOauth"@);
        assert forall|name: Seq<char>| name != "claudeAiOauth"@ implies #[trigger] member(
            after,
            name,
        ) == member(before, name) by {
            lemma_entry_trees(written, name);
            assert(tree_in(lookup(all, name)) == member(before, name));
        }
        assert(refreshed(before, after, *tokens));
    }
    match write_pretty(&value) {
        Ok(pretty) => Ok(join2(pretty.as_str(), "\n")),
        Err(_) => Err(SourceError::UnwritableCredentials),
    }
}

/// The credentials as they are written after a refresh, and the token that can then be used.
#[derive(Clone, Debug)]
pub struct Refreshed {
    pub text: String,
    pub access_token: String,
}

/// The outcome is that of a refresh with the given tokens and the text that they lead to.
pub open spec fn ends_refresh(
    tokens: Tokens,
    text: Result<String, SourceError>,
    outcome: Result<Refreshed, SourceError>,
) -> bool {
    match text {
        Ok(text) => outcome matches Ok(done) && done.text@ == text@ && done.access_token@
            == tokens.access@,
        Err(error) => outcome == Err::<Refreshed, SourceError>(error),
    }
}

/// The outcome is what a refresh's reply makes of the credentials.
pub open spec fn refreshes(
    credentials: Option<JsonTree>,
    reply: JsonTree,
    outcome: Result<Refreshed, SourceError>,
) -> bool {
    exists|tokens: Result<Tokens, SourceError>| #[trigger]
        brings(reply, tokens) && match tokens {
            Ok(tokens) => exists|text: Result<String, SourceError>| #[trigger]
                writes_refreshed(credentials, tokens, text) && ends_refresh(tokens, text, outcome),
            Err(error) => outcome == Err::<Refreshed, SourceError>(error),
        }
}

/// Reads a refresh's reply, and writes the credentials with its tokens.
pub fn read_refresh(credentials: &Vec<u8>, reply: &Vec<u8>) -> (outcome: Result<
    Refreshed,
    SourceError,
>)
    ensures
        match json_of_bytes(reply@) {
            Some(reply) => refreshes(json_of_bytes(credentials@), reply, outcome),
            None => outcome == Err::<Refreshed, SourceError>(SourceError::UnreadableRefresh),
        },
{
    let reply: Json = match json_from_bytes(reply) {
        Some(reply) => reply,
        None => {
            return Err(SourceError::UnreadableRefresh);
        },
    };
    let read: Result<Tokens, SourceError> = read_tokens(&reply);
    assert(brings(reply.tree(), read));
    match read {
        Ok(tokens) => {
            let text: Result<String, SourceError> = write_refreshed(credentials, &tokens);
            assert(writes_refreshed(json_of_bytes(credentials@), tokens, text));
            match text {
                Ok(text) => Ok(Refreshed { text, access_token: tokens.access }),
                Err(error) => Err(error),
            }
        },
        Err(error) => Err(error),
    }
}

/// What a refresh writes keeps every other member of the credentials and of the account in them,
/// and holds what the refresh brought.
pub proof fn law_refresh_preserves_other_fields(
    before: JsonTree,
    after: JsonTree,
    tokens: Tokens,
    other: Seq<char>,
)
    requires
        refreshed(before, after, tokens),
        account_in(before) is Some,
    ensures
        other != "claudeAiOauth"@ ==> member(after, other) == member(before, other),
        account_in(after) matches Some(account) && {
            &&& other != "accessToken"@ && other != "refreshToken"@ && other != "expiresAt"@
                ==> member(account, other) == member(account_in(before)->0, other)
            &&& text_in(member(account, "accessToken"@)) == Some(tokens.access@)
            &&& text_in(member(account, "refreshToken"@)) == Some(tokens.refresh@)
            &&& integer_at(account, "expiresAt"@) == Some(tokens.expires_at)
        },
{
    reveal_strlit("accessToken");
    reveal_strlit("refreshToken");
    reveal_strlit("expiresAt");
    assert("accessToken"@[0] == 'a');
    assert("refreshToken"@[0] == 'r');
    assert("expiresAt"@[0] == 'e');
    let account = member(after, "claudeAiOauth"@)->0;
    assert(member(account, other) == refreshed_member(account_in(before)->0, tokens, other));
    assert(member(account, "accessToken"@) == Some(JsonTree::Text(tokens.access@)));
    assert(member(account, "refreshToken"@) == Some(JsonTree::Text(tokens.refresh@)));
    assert(member(account, "expiresAt"@) == Some(
        JsonTree::Number(integer_number(tokens.expires_at)),
    ));
}

/// What was there and the tokens determine what a refresh leaves.
pub proof fn law_refresh_is_determined(
    before: JsonTree,
    a: JsonTree,
    b: JsonTree,
    tokens: Tokens,
)
    requires
        refreshed(before, a, tokens),
        refreshed(before, b, tokens),
    ensures
        a == b,
{
    let x = member(a, "claudeAiOauth"@)->0;
    let y = member(b, "claudeAiOauth"@)->0;
    assert forall|name: Seq<char>| member(x, name) == member(y, name) by {
        assert(member(x, name) == refreshed_member(account_in(before)->0, tokens, name));
        assert(member(y, name) == refreshed_member(account_in(before)->0, tokens, name));
    }
    lemma_sorted_determined(x, y);
    assert forall|name: Seq<char>| member(a, name) == member(b, name) by {
        if name != "claudeAiOauth"@ {
            assert(member(a, name) == member(before, name));
            assert(member(b, name) == member(before, name));
        }
    }
    lemma_sorted_determined(a, b);
}

proof fn lemma_sorted_determined(a: JsonTree, b: JsonTree)
    requires
        is_sorted_object(a),
        is_sorted_object(b),
        forall|name: Seq<char>| member(a, name) == member(b, name),
    ensures
        a == b,
{
    let x = a->Object_0;
    let y = b->Object_0;
    assert forall|name: Seq<char>| #[trigger] lookup(x, name) == lookup(y, name) by {
        lemma_ascending_member(x, name);
        lemma_ascending_member(y, name);
        assert(member(a, name) == member(b, name));
    }
    law_entries_determined(x, y);
}

/// What a refresh asks.
pub open spec fn refresh_request_tree(refresh_token: Seq<char>) -> JsonTree {
    JsonTree::Object(
        seq![
            ("grantType"@, JsonTree::Text("refresh_token"@)),
            ("refreshToken"@, JsonTree::Text(refresh_token)),
        ],
    )
}

/// Writes what a refresh asks.
pub fn refresh_body(refresh_token: &str) -> (body: String)
    ensures
        body@ == json_written(refresh_request_tree(refresh_token@)),
{
    let mut members: Vec<(String, serde_json::Value)> = Vec::new();
    members.push(("grantType".to_owned(), text_value("refresh_token".to_owned())));
    members.push(("refreshToken".to_owned(), text_value(refresh_token.to_owned())));
    proof {
        reveal_strlit("grantType");
        reveal_strlit("refreshToken");
        assert("grantType"@[0] == 'g');
        assert("refreshToken"@[0] == 'r');
        assert(precedes("grantType"@, "refreshToken"@));
        let trees = value_members(members@);
        assert(trees == refresh_request_tree(refresh_token@)->Object_0);
        assert(ascending(trees));
    }
    write_value(&object_value(members))
}

/// The `User-Agent` of a product.
pub fn user_agent(product: &str) -> (agent: String)
    ensures
        agent@ == product@ + "-code/2.1.114"@,
{
    join2(product, "-code/2.1.114")
}

/// The `Authorization` that a token gives.
pub fn authorization(access_token: &str) -> (header: String)
    ensures
        header@ == "Bearer "@ + access_token@,
{
    join2("Bearer ", access_token)
}

/// Reads the credentials.
pub fn read_credentials(bytes: &Vec<u8>) -> (result: Result<Json, SourceError>)
    ensures
        match result {
            Ok(json) => json_of_bytes(bytes@) == Some(json.tree()),
            Err(error) => error is UnreadableCredentials && json_of_bytes(bytes@) is None,
        },
{
    match json_from_bytes(bytes) {
        Some(json) => Ok(json),
        None => Err(SourceError::UnreadableCredentials),
    }
}

/// Reads a usage response from its bytes.
pub fn read_usage(bytes: &Vec<u8>, observed_at: Timestamp) -> (result: Result<
    QuotaSnapshot,
    SourceError,
>)
    ensures
        match json_of_bytes(bytes@) {
            Some(payload) => match result {
                Ok(snapshot) => snapshot.observed_at == observed_at && snapshot.fresh
                    && snapshot.windows@.len() > 0 && shows_usage(snapshot.windows@, payload),
                Err(error) => error is NoUsageWindows && forall|id: Seq<char>| #[trigger]
                    usage_reading(payload, id) is None,
            },
            None => result == Err::<QuotaSnapshot, SourceError>(SourceError::UnreadableUsage),
        },
{
    match json_from_bytes(bytes) {
        Some(payload) => parse_anthropic_usage(&payload, observed_at),
        None => Err(SourceError::UnreadableUsage),
    }
}

/// What a conversation with the Codex server waits for.
#[derive(Clone, Copy, Debug, PartialEq, Eq, Structural)]
pub enum CodexPhase {
    /// The answer to the initialization, which has the id 1.
    Initializing,
    /// The answer to the request for rate limits, which has the id 2.
    Reading,
}

/// What a line of the Codex server leads to.
#[derive(Clone, Debug)]
pub enum CodexStep {
    /// The line is not the answer that is waited for.
    Ignore,
    /// The server is initialized: the request for rate limits is sent.
    Request,
    /// The rate limits have been read.
    Finish(QuotaSnapshot),
    /// The server refused, or answered with nothing that can be used.
    Fail(SourceError),
}

impl CodexPhase {
    /// The id of the answer that is waited for.
    pub open spec fn awaited(self) -> i64 {
        match self {
            CodexPhase::Initializing => 1,
            CodexPhase::Reading => 2,
        }
    }

    fn awaited_id(self) -> (id: i64)
        ensures
            id == self.awaited(),
    {
        match self {
            CodexPhase::Initializing => 1,
            CodexPhase::Reading => 2,
        }
    }
}

/// The line that opens a conversation with the Codex server.
pub fn initialize_line() -> (line: &'static str)
    ensures
        line@
            == "{\"id\":1,\"method\":\"initialize\",\"params\":{\"clientInfo\":{\"name\":\"subscription-governor\",\"version\":\"0.1.0\"}}}"@,
{
    "{\"id\":1,\"method\":\"initialize\",\"params\":{\"clientInfo\":{\"name\":\"subscription-governor\",\"version\":\"0.1.0\"}}}"
}

/// The line that tells the Codex server that its answer arrived.
pub fn initialized_line() -> (line: &'static str)
    ensures
        line@ == "{\"method\":\"initialized\",\"params\":{}}"@,
{
    "{\"method\":\"initialized\",\"params\":{}}"
}

/// The line that asks the Codex server for rate limits.
pub fn rate_limits_line() -> (line: &'static str)
    ensures
        line@ == "{\"id\":2,\"method\":\"account/rateLimits/read\"}"@,
{
    "{\"id\":2,\"method\":\"account/rateLimits/read\"}"
}

/// What is sent after a step, and what is waited for then, if anything.
#[derive(Clone, Debug)]
pub struct CodexTurn {
    pub lines: Vec<&'static str>,
    pub phase: Option<CodexPhase>,
}

/// The lines that are sent after a step.
pub open spec fn lines_after(step: CodexStep) -> Seq<Seq<char>> {
    match step {
        CodexStep::Request => seq![
            "{\"method\":\"initialized\",\"params\":{}}"@,
            "{\"id\":2,\"method\":\"account/rateLimits/read\"}"@,
        ],
        _ => Seq::empty(),
    }
}

/// What is waited for after a step: the same answer after a line that was not it, the rate limits
/// after their request, and nothing after the end.
pub open spec fn phase_after(phase: CodexPhase, step: CodexStep) -> Option<CodexPhase> {
    match step {
        CodexStep::Ignore => Some(phase),
        CodexStep::Request => Some(CodexPhase::Reading),
        CodexStep::Finish(_) => None,
        CodexStep::Fail(_) => None,
    }
}

/// Opens a conversation with the Codex server.
pub fn open_codex() -> (turn: CodexTurn)
    ensures
        turn.lines@.len() == 1,
        turn.lines@[0]@
            == "{\"id\":1,\"method\":\"initialize\",\"params\":{\"clientInfo\":{\"name\":\"subscription-governor\",\"version\":\"0.1.0\"}}}"@,
        turn.phase == Some(CodexPhase::Initializing),
{
    CodexTurn { lines: vec![initialize_line()], phase: Some(CodexPhase::Initializing) }
}

/// Continues a conversation with the Codex server after a step.
pub fn continue_codex(phase: CodexPhase, step: &CodexStep) -> (turn: CodexTurn)
    ensures
        turn.lines@.map_values(|line: &'static str| line@) == lines_after(*step),
        turn.phase == phase_after(phase, *step),
{
    match step {
        CodexStep::Ignore => CodexTurn { lines: Vec::new(), phase: Some(phase) },
        CodexStep::Request => CodexTurn {
            lines: vec![initialized_line(), rate_limits_line()],
            phase: Some(CodexPhase::Reading),
        },
        _ => CodexTurn { lines: Vec::new(), phase: None },
    }
}

/// The rate limits are asked for once, after the answer to the initialization, and a snapshot or a
/// failure ends the conversation.
pub proof fn law_conversation_order(
    phase: CodexPhase,
    reply: JsonTree,
    error: Seq<char>,
    now: Timestamp,
    step: CodexStep,
)
    requires
        answers(phase, reply, error, now, step),
    ensures
        step is Request ==> phase == CodexPhase::Initializing,
        step is Finish ==> phase == CodexPhase::Reading,
        lines_after(step).len() > 0 ==> step is Request,
        phase_after(phase, step) is None <==> step is Finish || step is Fail,
        phase == CodexPhase::Reading && phase_after(phase, step) is Some ==> phase_after(phase, step)
            == Some(CodexPhase::Reading) && lines_after(step).len() == 0,
{
}

/// The step is what an answer leads to. The error in it is written as `error`.
pub open spec fn answers(
    phase: CodexPhase,
    reply: JsonTree,
    error: Seq<char>,
    now: Timestamp,
    step: CodexStep,
) -> bool {
    if integer_at(reply, "id"@) != Some(phase.awaited()) {
        step is Ignore
    } else if member(reply, "error"@) is Some {
        match phase {
            CodexPhase::Initializing => step matches CodexStep::Fail(
                SourceError::InitializationRejected(text),
            ) && text@ == error,
            CodexPhase::Reading => step matches CodexStep::Fail(
                SourceError::RateLimitsRejected(text),
            ) && text@ == error,
        }
    } else {
        match phase {
            CodexPhase::Initializing => step is Request,
            CodexPhase::Reading => match member(reply, "result"@) {
                Some(result) => if rate_limit_readings(result).len() == 0 {
                    step == CodexStep::Fail(SourceError::NoRateLimitWindows)
                } else {
                    step matches CodexStep::Finish(snapshot) && snapshot.observed_at == now
                        && snapshot.fresh && readings(snapshot.windows@) == rate_limit_readings(
                        result,
                    )
                },
                None => step == CodexStep::Fail(SourceError::ResultOmitted),
            },
        }
    }
}

/// Decides what an answer of the Codex server leads to; `error` is the text of the error in it.
pub fn answer_codex(phase: CodexPhase, reply: &Json, error: &str, now: Timestamp) -> (step:
    CodexStep)
    ensures
        answers(phase, reply.tree(), error@, now, step),
{
    match get_integer(reply, "id") {
        Some(id) => if id != phase.awaited_id() {
            return CodexStep::Ignore;
        },
        None => {
            return CodexStep::Ignore;
        },
    }
    if reply.get("error").is_some() {
        return CodexStep::Fail(
            match phase {
                CodexPhase::Initializing => SourceError::InitializationRejected(error.to_owned()),
                CodexPhase::Reading => SourceError::RateLimitsRejected(error.to_owned()),
            },
        );
    }
    match phase {
        CodexPhase::Initializing => CodexStep::Request,
        CodexPhase::Reading => match reply.get("result") {
            Some(result) => match parse_codex_rate_limits(result, now) {
                Ok(snapshot) => {
                    assert(readings(snapshot.windows@).len() == snapshot.windows@.len());
                    CodexStep::Finish(snapshot)
                },
                Err(_) => CodexStep::Fail(SourceError::NoRateLimitWindows),
            },
            None => CodexStep::Fail(SourceError::ResultOmitted),
        },
    }
}

/// Decides what a line of the Codex server leads to; one that is no JSON is ignored.
pub fn receive_codex_line(phase: CodexPhase, line: &str, now: Timestamp) -> (step: CodexStep)
    ensures
        match json_of_text(line@) {
            Some(reply) => exists|error: Seq<char>| #[trigger]
                answers(phase, reply, error, now, step) && (member(reply, "error"@) is Some
                    ==> member_written(Some(reply), "error"@) == Some(error)),
            None => step is Ignore,
        },
{
    match json_from_text(line) {
        Some(reply) => {
            let error: String = match write_member(line, "error") {
                Some(error) => error,
                None => String::new(),
            };
            let step: CodexStep = answer_codex(phase, &reply, error.as_str(), now);
            assert(answers(phase, reply.tree(), error@, now, step));
            step
        },
        None => CodexStep::Ignore,
    }
}

/// One hundred is a hundred times one.
proof fn lemma_hundred()
    ensures
        is_finite(hundred()),
        value(hundred()) == 100 * unit_count(),
        magnitude(hundred()) == 0x4059_0000_0000_0000,
        units_of(0x4058_ffff_ffff_ffff) == 100 * unit_count() - pow2(1028),
        100 * pow2(1021) < pow2(1028),
        unit_count() == pow2(1021) * 0x20_0000_0000_0000,
        pow2(1021) > 0,
{
    lemma2_to64();
    lemma2_to64_rest();
    lemma_pow2_adds(46, 1028);
    lemma_pow2_adds(7, 1021);
    lemma_pow2_adds(53, 1021);
    lemma_pow2_pos(1021);
    assert(step_of(0x4059_0000_0000_0000) == 1028);
    assert(significand_of(0x4059_0000_0000_0000) == 0x19_0000_0000_0000);
    assert(step_of(0x4058_ffff_ffff_ffff) == 1028);
    assert(significand_of(0x4058_ffff_ffff_ffff) == 0x18_ffff_ffff_ffff);
    let p = pow2(1028) as int;
    assert(0x19_0000_0000_0000 * p == 100 * (0x4000_0000_0000 * p)) by (nonlinear_arith);
    assert(0x18_ffff_ffff_ffff * p == 0x19_0000_0000_0000 * p - p) by (nonlinear_arith);
}

/// A percentage reads as its hundredth part, up to rounding, and so as less than itself.
pub proof fn law_percent_is_a_hundredth(percent: JsonNumber)
    requires
        is_finite(double_of(percent)),
        value(double_of(percent)) >= 0,
    ensures
        is_finite(percent_used(percent)),
        value(percent_used(percent)) >= 0,
        ({
            let given = value(double_of(percent));
            let read = 100 * value(percent_used(percent));
            ||| -given <= 0x20_0000_0000_0000 * (read - given) <= given
            ||| -100 <= 2 * (read - given) <= 100
        }),
        value(double_of(percent)) > 0 ==> value(percent_used(percent)) < value(double_of(percent)),
{
    lemma_hundred();
    let a = double_of(percent);
    let u = unit_count();
    let x = value(a);
    let y = 100 * u;
    lemma_pow2_pos(1074);
    lemma_magnitude(magnitude(a));
    assert(x * u <= x * y) by (nonlinear_arith)
        requires
            x >= 0,
            u <= y,
    ;
    assert(x == units_of(magnitude(a)));
    law_quotient_is_bounded(a, hundred(), magnitude(a));
    law_quotient_is_near(a, hundred());
    let q = value(percent_used(percent));
    let read = 100 * q;
    assert(q * y == read * u) by (nonlinear_arith)
        requires
            y == 100 * u,
            read == 100 * q,
    ;
    if -(x * u) <= 0x20_0000_0000_0000 * (read * u - x * u) <= x * u {
        assert(-x <= 0x20_0000_0000_0000 * (read - x) <= x) by (nonlinear_arith)
            requires
                -(x * u) <= 0x20_0000_0000_0000 * (read * u - x * u) <= x * u,
                u > 0,
        ;
    } else {
        assert(-100 <= 2 * (read - x) <= 100) by (nonlinear_arith)
            requires
                -(100 * u) <= 2 * (read * u - x * u) <= 100 * u,
                u > 0,
        ;
    }
}

/// A whole percentage reads as that many hundredths of one, up to one part in 2^53.
pub proof fn law_whole_percent(n: u64)
    requires
        n <= 0x20_0000_0000_0000,
    ensures
        ({
            let used = percent_used(JsonNumber::Unsigned(n));
            let exact = n * unit_count();
            is_finite(used) && -exact <= 0x20_0000_0000_0000 * (100 * value(used) - exact) <= exact
        }),
{
    law_integer_is_exact(n as int);
    lemma_hundred();
    let u = unit_count();
    let exact = n * u;
    assert(exact >= 0 && (n > 0 ==> exact >= u)) by (nonlinear_arith)
        requires
            exact == n * u,
            u > 0,
    ;
    law_percent_is_a_hundredth(JsonNumber::Unsigned(n));
    lemma2_to64();
    lemma2_to64_rest();
    lemma_pow2_strictly_increases(64, 1021);
    if n == 0 {
        lemma_magnitude(magnitude(of_integer(0)));
        assert(magnitude(of_integer(0)) == 0);
    }
}

/// A larger percentage never reads as a smaller fraction.
pub proof fn law_percent_keeps_order(less: JsonNumber, more: JsonNumber)
    requires
        is_finite(double_of(less)),
        is_finite(double_of(more)),
        0 <= value(double_of(less)) <= value(double_of(more)),
    ensures
        value(percent_used(less)) <= value(percent_used(more)),
        reaches(percent_used(more), percent_used(less)),
{
    lemma_hundred();
    lemma_pow2_pos(1074);
    law_percent_is_a_hundredth(less);
    law_percent_is_a_hundredth(more);
    law_quotient_keeps_order(double_of(less), double_of(more), hundred());
    law_order_is_of_values(percent_used(more), percent_used(less));
}

/// A use of a hundred percent or more, and no less, is the whole quota or more.
pub proof fn law_hundred_percent_is_the_whole(percent: JsonNumber)
    requires
        is_finite(double_of(percent)),
    ensures
        reaches(percent_used(percent), one()) <==> value(double_of(percent)) >= 100 * unit_count(),
        reaches(double_of(percent), hundred()) <==> value(double_of(percent)) >= 100 * unit_count(),
{
    lemma_hundred();
    let a = double_of(percent);
    let u = unit_count();
    lemma_pow2_pos(1074);
    law_order_is_of_values(a, hundred());
    law_order_is_of_values(one(), one());
    law_one_is_one();
    if value(a) >= 100 * u {
        law_percent_is_a_hundredth(percent);
        law_self_quotient_is_one(hundred());
        law_quotient_keeps_order(hundred(), a, hundred());
        law_order_is_of_values(percent_used(percent), one());
    } else if value(a) >= 0 {
        law_percent_is_a_hundredth(percent);
        law_order_is_of_values(percent_used(percent), one());
        law_units_of_lesser(magnitude(a), 0x4058_ffff_ffff_ffff);
        lemma_magnitude(magnitude(a));
        lemma2_to64();
        lemma2_to64_rest();
        lemma_pow2_strictly_increases(64, 1028);
        assert(value(percent_used(percent)) < u);
    } else {
        law_quotient_of_negative(a, hundred());
    }
}

/// The window that a bucket's numbers write: `percent` used, and a reset at `epoch` seconds.
pub open spec fn is_rate_window(
    shown: WindowReading,
    limit_id: Seq<char>,
    name: Seq<char>,
    window: JsonTree,
    percent: JsonNumber,
    epoch: int,
) -> bool {
    &&& shown.id == limit_id + "."@ + name
    &&& shown.used_fraction == percent_used(percent)
    &&& shown.resets_at.0 == epoch
    &&& shown.resets_at.1 == 0
    &&& shown.duration_minutes == (match member(window, "windowDurationMins"@) {
        Some(JsonTree::Number(JsonNumber::Unsigned(minutes))) => Some(minutes),
        _ => None,
    })
    &&& is_finite(double_of(percent)) ==> (shown.reached <==> value(double_of(percent)) >= 100
        * unit_count())
}

/// Every window of every bucket is read: with its percentage as its use, with its reset at the
/// given second, reached from a hundred percent on, and under the bucket's id and its own name.
pub proof fn law_rate_windows_are_read(
    result: JsonTree,
    buckets: Seq<(Seq<char>, JsonTree)>,
    i: int,
    name: Seq<char>,
    window: JsonTree,
    percent: JsonNumber,
    epoch: i64,
)
    requires
        member(result, "rateLimitsByLimitId"@) == Some(JsonTree::Object(buckets)),
        0 <= i < buckets.len(),
        name == "primary"@ || name == "secondary"@,
        member(buckets[i].1, name) == Some(window),
        member(window, "usedPercent"@) == Some(JsonTree::Number(percent)),
        member(window, "resetsAt"@) == Some(
            JsonTree::Number(integer_number(epoch)),
        ),
        -8_334_601_228_800 <= epoch <= 8_210_266_876_799,
    ensures
        exists|j: int|
            0 <= j < rate_limit_readings(result).len() && is_rate_window(
                #[trigger] rate_limit_readings(result)[j],
                buckets[i].0,
                name,
                window,
                percent,
                epoch as int,
            ),
{
    law_every_bucket_is_retained(result, i, name);
    let shown = rate_window(buckets[i].0, buckets[i].1, name)->0;
    if is_finite(double_of(percent)) {
        law_hundred_percent_is_the_whole(percent);
    }
    assert(is_rate_window(shown, buckets[i].0, name, window, percent, epoch as int));
    let all = rate_limit_readings(result);
    let j = choose|j: int| 0 <= j < all.len() && all[j] == shown;
    assert(is_rate_window(all[j], buckets[i].0, name, window, percent, epoch as int));
}

/// The older form is read the same way, under its own id or as the default, where there are no
/// buckets by id.
pub proof fn law_single_rate_window_is_read(
    result: JsonTree,
    limit: JsonTree,
    id: Seq<char>,
    name: Seq<char>,
    window: JsonTree,
    percent: JsonNumber,
    epoch: i64,
)
    requires
        !(member(result, "rateLimitsByLimitId"@) matches Some(JsonTree::Object(_))),
        member(result, "rateLimits"@) == Some(limit),
        match member(limit, "limitId"@) {
            Some(JsonTree::Text(text)) => id == text,
            _ => id == "default"@,
        },
        name == "primary"@ || name == "secondary"@,
        member(limit, name) == Some(window),
        member(window, "usedPercent"@) == Some(JsonTree::Number(percent)),
        member(window, "resetsAt"@) == Some(
            JsonTree::Number(integer_number(epoch)),
        ),
        -8_334_601_228_800 <= epoch <= 8_210_266_876_799,
    ensures
        exists|j: int|
            0 <= j < rate_limit_readings(result).len() && is_rate_window(
                #[trigger] rate_limit_readings(result)[j],
                id,
                name,
                window,
                percent,
                epoch as int,
            ),
{
    let shown = rate_window(id, limit, name)->0;
    if is_finite(double_of(percent)) {
        law_hundred_percent_is_the_whole(percent);
    }
    assert(is_rate_window(shown, id, name, window, percent, epoch as int));
    let all = rate_limit_readings(result);
    let j = if name == "primary"@ {
        0
    } else {
        listed(rate_window(id, limit, "primary"@)).len() as int
    };
    assert(all[j] == shown);
}

/// A bucket shows a window under a name: its percentage is the window's use, and its reset is the
/// window's.
pub open spec fn bucket_shows(bucket: JsonTree, name: Seq<char>, shown: WindowReading) -> bool {
    member(bucket, name) matches Some(window) && member(window, "usedPercent"@) matches Some(
        JsonTree::Number(percent),
    ) && shown.used_fraction == percent_used(percent) && integer_in(member(window, "resetsAt"@))
        == Some(shown.resets_at.0) && shown.resets_at.1 == 0
}

/// A window is read from a bucket that shows it.
pub open spec fn is_read_from(shown: WindowReading, limit_id: Seq<char>, bucket: JsonTree) -> bool {
    ||| shown.id == limit_id + "."@ + "primary"@ && bucket_shows(bucket, "primary"@, shown)
    ||| shown.id == limit_id + "."@ + "secondary"@ && bucket_shows(bucket, "secondary"@, shown)
}

proof fn lemma_read_from_bucket(buckets: Seq<(Seq<char>, JsonTree)>, n: int, j: int) -> (i: int)
    requires
        n <= buckets.len(),
        0 <= j < buckets_readings(buckets, n).len(),
    ensures
        0 <= i < n,
        is_read_from(buckets_readings(buckets, n)[j], buckets[i].0, buckets[i].1),
    decreases n,
{
    let before = buckets_readings(buckets, n - 1);
    if j < before.len() {
        lemma_read_from_bucket(buckets, n - 1, j)
    } else {
        n - 1
    }
}

/// No window is made up: each one that is read stems from a bucket that shows it.
pub proof fn law_no_rate_window_is_made_up(
    result: JsonTree,
    buckets: Seq<(Seq<char>, JsonTree)>,
    j: int,
)
    requires
        member(result, "rateLimitsByLimitId"@) == Some(JsonTree::Object(buckets)),
        0 <= j < rate_limit_readings(result).len(),
    ensures
        exists|i: int|
            0 <= i < buckets.len() && is_read_from(
                rate_limit_readings(result)[j],
                (#[trigger] buckets[i]).0,
                buckets[i].1,
            ),
{
    let i = lemma_read_from_bucket(buckets, buckets.len() as int, j);
    assert(is_read_from(rate_limit_readings(result)[j], buckets[i].0, buckets[i].1));
}

/// The window that a usage entry's numbers write: `percent` used, and a reset at an instant.
pub open spec fn is_usage_window(
    shown: Option<WindowReading>,
    id: Seq<char>,
    percent: JsonNumber,
    resets_at: (i64, u32),
) -> bool {
    shown matches Some(window) && {
        &&& window.id == id
        &&& window.used_fraction == percent_used(percent)
        &&& window.resets_at == resets_at
        &&& window.duration_minutes is None
        &&& is_finite(double_of(percent)) ==> (window.reached <==> value(double_of(percent)) >= 100
            * unit_count())
    }
}

/// A generic limit that is not inactive is read: under its kind, with its percentage as its use and
/// with its reset; the last of its kind, where there are several.
pub proof fn law_generic_limits_are_read(
    payload: JsonTree,
    limits: Seq<JsonTree>,
    i: int,
    id: Seq<char>,
    percent: JsonNumber,
    text: Seq<char>,
    resets_at: (i64, u32),
)
    requires
        member(payload, "limits"@) == Some(JsonTree::List(limits)),
        0 <= i < limits.len(),
        member(limits[i], "kind"@) == Some(JsonTree::Text(id)),
        member(limits[i], "is_active"@) != Some(JsonTree::Bool(false)),
        member(limits[i], "percent"@) == Some(JsonTree::Number(percent)),
        member(limits[i], "resets_at"@) == Some(JsonTree::Text(text)),
        parsed_instant(rfc3339_instant(text)) == Some(resets_at),
        forall|j: int|
            i < j < limits.len() ==> member(#[trigger] limits[j], "kind"@) != Some(
                JsonTree::Text(id),
            ),
    ensures
        is_usage_window(usage_reading(payload, id), id, percent, resets_at),
{
    assert forall|j: int| i < j < limits.len() implies text_in(
        member(#[trigger] limits[j], "kind"@),
    ) != Some(id) by {
        assert(member(limits[j], "kind"@) != Some(JsonTree::Text(id)));
    }
    law_generic_limit_supersedes(payload, i, id);
    if is_finite(double_of(percent)) {
        law_hundred_percent_is_the_whole(percent);
    }
}

proof fn lemma_no_limit(limits: Seq<JsonTree>, n: int, id: Seq<char>)
    requires
        n <= limits.len(),
        forall|j: int|
            0 <= j < n ==> member(#[trigger] limits[j], "kind"@) != Some(JsonTree::Text(id)),
    ensures
        limit_reading(limits, n, id) is None,
    decreases n,
{
    if n > 0 {
        assert(member(limits[n - 1], "kind"@) != Some(JsonTree::Text(id)));
        lemma_no_limit(limits, n - 1, id);
    }
}

/// A window with a member of its own that is not inactive is read, where no generic limit is of its
/// kind: with its utilization as its use and with its reset.
pub proof fn law_own_windows_are_read(
    payload: JsonTree,
    id: Seq<char>,
    entry: JsonTree,
    percent: JsonNumber,
    text: Seq<char>,
    resets_at: (i64, u32),
)
    requires
        id == "five_hour"@ || id == "seven_day"@ || id == "weekly_scoped"@,
        member(payload, id) == Some(entry),
        member(entry, "is_active"@) != Some(JsonTree::Bool(false)),
        member(entry, "utilization"@) == Some(JsonTree::Number(percent)),
        member(entry, "resets_at"@) == Some(JsonTree::Text(text)),
        parsed_instant(rfc3339_instant(text)) == Some(resets_at),
        member(payload, "limits"@) matches Some(JsonTree::List(limits)) ==> forall|j: int|
            0 <= j < limits.len() ==> member(#[trigger] limits[j], "kind"@) != Some(
                JsonTree::Text(id),
            ),
    ensures
        is_usage_window(usage_reading(payload, id), id, percent, resets_at),
{
    let limits = limits_in(payload);
    lemma_no_limit(limits, limits.len() as int, id);
    if is_finite(double_of(percent)) {
        law_hundred_percent_is_the_whole(percent);
    }
}

proof fn lemma_limit_is_shown(limits: Seq<JsonTree>, n: int, id: Seq<char>) -> (i: int)
    requires
        n <= limits.len(),
        limit_reading(limits, n, id) is Some,
    ensures
        0 <= i < n,
        member(limits[i], "kind"@) == Some(JsonTree::Text(id)),
        member(limits[i], "is_active"@) != Some(JsonTree::Bool(false)),
    decreases n,
{
    if text_in(member(limits[n - 1], "kind"@)) == Some(id) && usage_window(
        id,
        limits[n - 1],
        "percent"@,
    ) is Some {
        n - 1
    } else {
        lemma_limit_is_shown(limits, n - 1, id)
    }
}

/// No window is made up, nor read from an inactive entry: one that is read stems from a generic
/// limit of its kind or from a member of its name that is not inactive.
pub proof fn law_no_usage_window_is_made_up(payload: JsonTree, id: Seq<char>)
    requires
        usage_reading(payload, id) is Some,
    ensures
        (exists|i: int|
            0 <= i < limits_in(payload).len() && member(
                #[trigger] limits_in(payload)[i],
                "kind"@,
            ) == Some(JsonTree::Text(id)) && member(limits_in(payload)[i], "is_active"@) != Some(
                JsonTree::Bool(false),
            )) || ((id == "five_hour"@ || id == "seven_day"@ || id == "weekly_scoped"@) && member(
            payload,
            id,
        ) is Some && member(member(payload, id)->0, "is_active"@) != Some(JsonTree::Bool(false))),
{
    let limits = limits_in(payload);
    if limit_reading(limits, limits.len() as int, id) is Some {
        let i = lemma_limit_is_shown(limits, limits.len() as int, id);
        assert(member(limits[i], "kind"@) == Some(JsonTree::Text(id)));
    }
}

/// A snapshot is accepted exactly when it has windows, and each has an id and a use from nothing to
/// the whole quota.
pub proof fn law_sound_snapshot(snapshot: QuotaSnapshot)
    ensures
        sound_snapshot(snapshot) <==> snapshot.windows@.len() > 0 && forall|i: int|
            0 <= i < snapshot.windows@.len() ==> (#[trigger] snapshot.windows@[i]).id@.len() > 0
                && is_finite(snapshot.windows@[i].used_fraction) && 0 <= value(
                snapshot.windows@[i].used_fraction,
            ) <= unit_count(),
{
    law_one_is_one();
    lemma_magnitude(0);
    assert forall|i: int| 0 <= i < snapshot.windows@.len() implies (sound_window(
        #[trigger] snapshot.windows@[i],
    ) <==> snapshot.windows@[i].id@.len() > 0 && is_finite(snapshot.windows@[i].used_fraction) && 0
        <= value(snapshot.windows@[i].used_fraction) <= unit_count()) by {
        let used = snapshot.windows@[i].used_fraction;
        if is_finite(used) {
            law_order_is_of_values(used, zero());
            law_order_is_of_values(one(), used);
        }
    }
    if sound_snapshot(snapshot) {
        assert forall|i: int| 0 <= i < snapshot.windows@.len() implies (
        #[trigger] snapshot.windows@[i]).id@.len() > 0 && is_finite(
            snapshot.windows@[i].used_fraction,
        ) && 0 <= value(snapshot.windows@[i].used_fraction) <= unit_count() by {
            assert(sound_window(snapshot.windows@[i]));
        }
    }
}

/// A token is used only while it stays valid for more than five minutes, and refreshed as soon as it
/// does not, however long ago it expired; and what is used or traded in is the token that the
/// credentials hold for it. Credentials with all their members never fail.
pub proof fn law_token_steps(
    credentials: JsonTree,
    account: Seq<(Seq<char>, JsonTree)>,
    expires_at: u64,
    access: Seq<char>,
    refresh: Seq<char>,
    now_milliseconds: int,
    step: Result<TokenStep, SourceError>,
)
    requires
        member(credentials, "claudeAiOauth"@) == Some(JsonTree::Object(account)),
        member(JsonTree::Object(account), "expiresAt"@) == Some(
            JsonTree::Number(JsonNumber::Unsigned(expires_at)),
        ),
        expires_at <= i64::MAX,
        member(JsonTree::Object(account), "accessToken"@) == Some(JsonTree::Text(access)),
        member(JsonTree::Object(account), "refreshToken"@) == Some(JsonTree::Text(refresh)),
        access.len() > 0,
        refresh.len() > 0,
        calls_for(credentials, now_milliseconds, step),
    ensures
        now_milliseconds + 300_000 < expires_at ==> (step matches Ok(TokenStep::Use(token))
            && token@ == access),
        now_milliseconds + 300_000 >= expires_at ==> (step matches Ok(TokenStep::Refresh(token))
            && token@ == refresh),
{
}

/// A step that succeeds uses a token only where it stays valid for more than five minutes, and
/// trades one in only where it does not.
pub proof fn law_token_is_used_only_while_valid(
    credentials: JsonTree,
    now_milliseconds: int,
    step: Result<TokenStep, SourceError>,
)
    requires
        calls_for(credentials, now_milliseconds, step),
        step is Ok,
    ensures
        member(credentials, "claudeAiOauth"@) matches Some(account) && account is Object
            && match member(account, "expiresAt"@) {
            Some(JsonTree::Number(JsonNumber::Unsigned(expires_at))) => (step matches Ok(
                TokenStep::Use(_),
            )) <==> now_milliseconds + 300_000 < expires_at,
            Some(JsonTree::Number(JsonNumber::Negative(expires_at))) => (step matches Ok(
                TokenStep::Use(_),
            )) <==> now_milliseconds + 300_000 < expires_at,
            _ => false,
        },
        step matches Ok(TokenStep::Use(token)) ==> token@.len() > 0 && member(
            member(credentials, "claudeAiOauth"@)->0,
            "accessToken"@,
        ) == Some(JsonTree::Text(token@)),
        step matches Ok(TokenStep::Refresh(token)) ==> token@.len() > 0 && member(
            member(credentials, "claudeAiOauth"@)->0,
            "refreshToken"@,
        ) == Some(JsonTree::Text(token@)),
{
}

/// A refresh that is due is due at every later instant.
pub proof fn law_refresh_stays_due(
    credentials: JsonTree,
    sooner: int,
    later: int,
    first: Result<TokenStep, SourceError>,
    second: Result<TokenStep, SourceError>,
)
    requires
        calls_for(credentials, sooner, first),
        calls_for(credentials, later, second),
        sooner <= later,
        first matches Ok(TokenStep::Refresh(_)),
    ensures
        second matches Ok(TokenStep::Refresh(token)) && first matches Ok(TokenStep::Refresh(before))
            && token@ == before@,
{
}

/// The tokens of a reply with all its members are those members, and a reply that lacks one brings
/// none.
pub proof fn law_reply_brings_its_tokens(reply: JsonTree, tokens: Result<Tokens, SourceError>)
    requires
        brings(reply, tokens),
    ensures
        tokens matches Ok(found) ==> found.access@.len() > 0 && found.refresh@.len() > 0 && member(
            reply,
            "accessToken"@,
        ) == Some(JsonTree::Text(found.access@)) && member(reply, "refreshToken"@) == Some(
            JsonTree::Text(found.refresh@),
        ) && member(reply, "expiresAt"@) == Some(
            JsonTree::Number(
                if found.expires_at >= 0 && !(member(reply, "expiresAt"@) matches Some(
                    JsonTree::Number(JsonNumber::Negative(_)),
                )) {
                    JsonNumber::Unsigned(found.expires_at as u64)
                } else {
                    JsonNumber::Negative(found.expires_at)
                },
            ),
        ),
        tokens is Err ==> !(member(reply, "accessToken"@) matches Some(JsonTree::Text(access))
            && access.len() > 0) || !(member(reply, "refreshToken"@) matches Some(
            JsonTree::Text(refresh),
        ) && refresh.len() > 0) || !(member(reply, "expiresAt"@) matches Some(
            JsonTree::Number(JsonNumber::Unsigned(n)),
        ) && n <= i64::MAX) && !(member(reply, "expiresAt"@) matches Some(
            JsonTree::Number(JsonNumber::Negative(_)),
        )),
{
}

/// What an answer of the Codex server leads to: one with another id, or with none, is passed over;
/// one with an error fails; the answer to the initialization leads to the request; and the answer
/// to that leads to the windows in its result.
pub proof fn law_conversation_answers(
    phase: CodexPhase,
    reply: JsonTree,
    error: Seq<char>,
    now: Timestamp,
    step: CodexStep,
)
    requires
        answers(phase, reply, error, now, step),
    ensures
        ({
            let awaited: u64 = if phase == CodexPhase::Initializing {
                1
            } else {
                2
            };
            let mine = member(reply, "id"@) == Some(
                JsonTree::Number(JsonNumber::Unsigned(awaited)),
            );
            &&& !mine && !(member(reply, "id"@) matches Some(
                JsonTree::Number(JsonNumber::Negative(_)),
            )) ==> step is Ignore
            &&& mine ==> !(step is Ignore)
            &&& mine && member(reply, "error"@) is Some ==> step is Fail
            &&& mine && member(reply, "error"@) is None && phase == CodexPhase::Initializing
                ==> step is Request
            &&& mine && member(reply, "error"@) is None && phase == CodexPhase::Reading ==> (
            match member(reply, "result"@) {
                Some(result) => if rate_limit_readings(result).len() > 0 {
                    step matches CodexStep::Finish(snapshot) && readings(snapshot.windows@)
                        == rate_limit_readings(result) && snapshot.observed_at == now
                        && snapshot.fresh
                } else {
                    step is Fail
                },
                None => step is Fail,
            })
        }),
{
}

/// A JSON number is the double that it writes: an integer is itself, up to rounding, and exactly up
/// to 2^53, and any other number is the double that was read.
pub proof fn law_numbers_as_doubles(number: JsonNumber)
    ensures
        match number {
            JsonNumber::Unsigned(n) => is_finite(double_of(number)) && -(n * unit_count())
                <= 0x20_0000_0000_0000 * (value(double_of(number)) - n * unit_count()) <= n
                * unit_count() && (n <= 0x20_0000_0000_0000 ==> value(double_of(number)) == n
                * unit_count()),
            JsonNumber::Negative(n) => n < 0 ==> is_negative(double_of(number)) && magnitude(
                double_of(number),
            ) == magnitude(of_integer(-n)),
            JsonNumber::Float(bits) => double_of(number).bits == bits,
        },
{
    match number {
        JsonNumber::Unsigned(n) => {
            law_integer_is_near(n as int);
            if n <= 0x20_0000_0000_0000 {
                law_integer_is_exact(n as int);
            }
        },
        JsonNumber::Negative(n) => {
            if n < 0 {
                law_integer_is_near(-n);
                law_negative_integer(n as int);
            }
        },
        JsonNumber::Float(_) => {},
    }
}

/// A negative percentage reads as a fraction that is not above nothing.
pub proof fn law_negative_percent(percent: JsonNumber)
    requires
        is_finite(double_of(percent)),
        value(double_of(percent)) < 0,
    ensures
        is_negative(percent_used(percent)),
{
    lemma_hundred();
    lemma_pow2_pos(1074);
    law_quotient_of_negative(double_of(percent), hundred());
}

/// Buckets are read one after the other: the windows of more buckets are those of the first ones,
/// and then those of the last one by itself.
pub proof fn law_buckets_keep_their_order(
    result: JsonTree,
    fewer: JsonTree,
    single: JsonTree,
    buckets: Seq<(Seq<char>, JsonTree)>,
    last: (Seq<char>, JsonTree),
)
    requires
        member(result, "rateLimitsByLimitId"@) == Some(JsonTree::Object(buckets.push(last))),
        member(fewer, "rateLimitsByLimitId"@) == Some(JsonTree::Object(buckets)),
        member(single, "rateLimitsByLimitId"@) == Some(JsonTree::Object(seq![last])),
    ensures
        rate_limit_readings(result) == rate_limit_readings(fewer) + rate_limit_readings(single),
{
    let all = buckets.push(last);
    let n = buckets.len() as int;
    lemma_same_buckets(all, buckets, n);
    assert(buckets_readings(seq![last], 0) == Seq::<WindowReading>::empty());
    assert(buckets_readings(seq![last], 1) == bucket_readings(last.0, last.1));
    assert(buckets_readings(all, n + 1) == buckets_readings(all, n) + bucket_readings(
        last.0,
        last.1,
    ));
}

proof fn lemma_same_buckets(
    a: Seq<(Seq<char>, JsonTree)>,
    b: Seq<(Seq<char>, JsonTree)>,
    n: int,
)
    requires
        n <= a.len(),
        n <= b.len(),
        forall|i: int| 0 <= i < n ==> #[trigger] a[i] == b[i],
    ensures
        buckets_readings(a, n) == buckets_readings(b, n),
    decreases n,
{
    if n > 0 {
        lemma_same_buckets(a, b, n - 1);
        assert(a[n - 1] == b[n - 1]);
    }
}

/// A bucket shows at most its two windows, the primary one first.
pub proof fn law_primary_comes_first(result: JsonTree, bucket: (Seq<char>, JsonTree))
    requires
        member(result, "rateLimitsByLimitId"@) == Some(JsonTree::Object(seq![bucket])),
    ensures
        rate_limit_readings(result).len() <= 2,
        rate_limit_readings(result).len() == 2 ==> rate_limit_readings(result)[0].id == bucket.0
            + "."@ + "primary"@ && rate_limit_readings(result)[1].id == bucket.0 + "."@
            + "secondary"@,
{
    assert(buckets_readings(seq![bucket], 0) == Seq::<WindowReading>::empty());
    assert(buckets_readings(seq![bucket], 1) == bucket_readings(bucket.0, bucket.1));
}

/// The windows of a usage snapshot are just those that the response shows: each that is read under
/// some id is among them, and each of them is read under its id.
pub proof fn law_usage_windows_are_shown(
    windows: Seq<QuotaWindow>,
    payload: JsonTree,
    id: Seq<char>,
    shown: WindowReading,
)
    requires
        shows_usage(windows, payload),
        shown.id == id,
    ensures
        usage_reading(payload, id) == Some(shown) <==> readings(windows).contains(shown),
{
    if usage_reading(payload, id) == Some(shown) {
        let i = choose|i: int| 0 <= i < windows.len() && (#[trigger] windows[i]).id@ == id;
        assert(readings(windows)[i] == shown);
    }
    if readings(windows).contains(shown) {
        let i = choose|i: int| 0 <= i < readings(windows).len() && readings(windows)[i] == shown;
        assert(reading(windows[i]) == shown);
        assert(windows[i].id@ == id);
    }
}

/// Credentials that lack a member that is needed fail, and the failure names the member.
pub proof fn law_token_failures(
    credentials: JsonTree,
    now_milliseconds: int,
    step: Result<TokenStep, SourceError>,
)
    requires
        calls_for(credentials, now_milliseconds, step),
        step is Err,
    ensures
        step matches Err(SourceError::CredentialsLack(lacking)) && match lacking {
            Credential::Account => !(member(credentials, "claudeAiOauth"@) matches Some(
                JsonTree::Object(_),
            )),
            Credential::ExpiresAt => !(member(
                member(credentials, "claudeAiOauth"@)->0,
                "expiresAt"@,
            ) matches Some(JsonTree::Number(JsonNumber::Negative(_)))) && !(member(
                member(credentials, "claudeAiOauth"@)->0,
                "expiresAt"@,
            ) matches Some(JsonTree::Number(JsonNumber::Unsigned(n))) && n <= i64::MAX),
            Credential::RefreshToken => !(member(
                member(credentials, "claudeAiOauth"@)->0,
                "refreshToken"@,
            ) matches Some(JsonTree::Text(text)) && text.len() > 0),
            Credential::AccessToken => !(member(
                member(credentials, "claudeAiOauth"@)->0,
                "accessToken"@,
            ) matches Some(JsonTree::Text(text)) && text.len() > 0),
        },
{
}

/// A refresh that succeeds hands out the access token of its reply, and writes credentials that are
/// pretty, end in a line break, and hold the tokens of the reply beside all else that was there.
pub proof fn law_refresh_writes_the_reply(
    before: JsonTree,
    reply: JsonTree,
    done: Refreshed,
    other: Seq<char>,
)
    requires
        refreshes(Some(before), reply, Ok(done)),
    ensures
        member(reply, "accessToken"@) == Some(JsonTree::Text(done.access_token@)),
        exists|after: JsonTree|
            (#[trigger] json_pretty(after) matches Some(pretty) && done.text@ == pretty + "\n"@) && (
            other != "claudeAiOauth"@ ==> member(after, other) == member(before, other)) && (member(
                after,
                "claudeAiOauth"@,
            ) matches Some(account) && (other != "accessToken"@ && other != "refreshToken"@ && other
                != "expiresAt"@ ==> member(account, other) == member(
                member(before, "claudeAiOauth"@)->0,
                other,
            )) && member(account, "accessToken"@) == member(reply, "accessToken"@) && member(
                account,
                "refreshToken"@,
            ) == member(reply, "refreshToken"@) && integer_in(member(account, "expiresAt"@))
                == integer_in(member(reply, "expiresAt"@))),
{
    let outcome: Result<Refreshed, SourceError> = Ok(done);
    let read = choose|tokens: Result<Tokens, SourceError>| #[trigger]
        brings(reply, tokens) && match tokens {
            Ok(tokens) => exists|text: Result<String, SourceError>| #[trigger]
                writes_refreshed(Some(before), tokens, text) && ends_refresh(tokens, text, outcome),
            Err(error) => outcome == Err::<Refreshed, SourceError>(error),
        };
    law_reply_brings_its_tokens(reply, read);
    let tokens = read->Ok_0;
    let text = choose|text: Result<String, SourceError>| #[trigger]
        writes_refreshed(Some(before), tokens, text) && ends_refresh(tokens, text, outcome);
    let after = choose|after: JsonTree| #[trigger]
        refreshed(before, after, tokens) && match json_pretty(after) {
            Some(pretty) => text matches Ok(text) && text@ == pretty + "\n"@,
            None => text == Err::<String, SourceError>(SourceError::UnwritableCredentials),
        };
    law_refresh_preserves_other_fields(before, after, tokens, other);
    assert(json_pretty(after) is Some);
}

/// A refresh whose reply has all its tokens, for credentials with an account, fails only where they
/// cannot be written.
pub proof fn law_refresh_succeeds(
    before: JsonTree,
    reply: JsonTree,
    outcome: Result<Refreshed, SourceError>,
)
    requires
        refreshes(Some(before), reply, outcome),
        member(before, "claudeAiOauth"@) matches Some(JsonTree::Object(_)),
        member(reply, "accessToken"@) matches Some(JsonTree::Text(access)) && access.len() > 0,
        member(reply, "refreshToken"@) matches Some(JsonTree::Text(refresh)) && refresh.len() > 0,
        member(reply, "expiresAt"@) matches Some(JsonTree::Number(JsonNumber::Unsigned(n))) && n
            <= i64::MAX,
    ensures
        outcome matches Err(error) ==> error is UnwritableCredentials,
{
    let read = choose|tokens: Result<Tokens, SourceError>| #[trigger]
        brings(reply, tokens) && match tokens {
            Ok(tokens) => exists|text: Result<String, SourceError>| #[trigger]
                writes_refreshed(Some(before), tokens, text) && ends_refresh(tokens, text, outcome),
            Err(error) => outcome == Err::<Refreshed, SourceError>(error),
        };
    law_reply_brings_its_tokens(reply, read);
}

/// What a refusal of the Codex server says is handed on, and how a conversation goes on: it waits
/// for the same answer after a line that was not it, and for the rate limits after it has asked for
/// them, behind the notice that the first answer arrived.
pub proof fn law_conversation_goes_on(
    phase: CodexPhase,
    reply: JsonTree,
    error: Seq<char>,
    now: Timestamp,
    step: CodexStep,
)
    requires
        answers(phase, reply, error, now, step),
    ensures
        step is Fail && member(reply, "error"@) is Some ==> match phase {
            CodexPhase::Initializing => step matches CodexStep::Fail(
                SourceError::InitializationRejected(text),
            ) && text@ == error,
            CodexPhase::Reading => step matches CodexStep::Fail(
                SourceError::RateLimitsRejected(text),
            ) && text@ == error,
        },
        step is Ignore ==> phase_after(phase, step) == Some(phase) && lines_after(step).len() == 0,
        step is Request ==> phase_after(phase, step) == Some(CodexPhase::Reading) && lines_after(
            step,
        ).len() == 2 && lines_after(step)[0] == "{\"method\":\"initialized\",\"params\":{}}"@
            && lines_after(step)[1] == "{\"id\":2,\"method\":\"account/rateLimits/read\"}"@,
{
}

} // verus!

//! Fleets: reading how many workers run, and saying how many should.

use crate::config::{placeholder, ActuatorConfig, FleetConfig, WorkerObserverConfig};
use crate::json::{json_from_text, json_of_text, member, natural_in, Json, JsonNumber, JsonTree};
use crate::paths::FilePath;
use crate::text::{
    count_of, decimal, digits, from_chars, is_digit, is_space, join2, law_count_of_digits,
    law_every_occurrence_is_replaced, law_replaced_at, law_replaced_nowhere, law_trimmed_digits,
    law_trimmed_digits_between, lemma_digits, occurs, occurs_at, parse_count, replace_text, replaced,
    trim_text, trimmed,
};
use vstd::prelude::*;

verus! {

/// Why what an observer printed is no count of workers.
#[derive(Clone, Copy, Debug, PartialEq, Eq, Structural)]
pub enum CountError {
    /// It is neither an integer nor JSON.
    Unreadable,
    /// It is JSON without a count that fits.
    Omitted,
}

impl CountError {
    /// The message for a reader.
    pub open spec fn text(self) -> Seq<char> {
        match self {
            CountError::Unreadable =>
                "worker observer must print an integer or {\"current_workers\": N}"@,
            CountError::Omitted => "worker observer JSON omitted a valid current_workers"@,
        }
    }

    /// Writes the message for a reader.
    pub fn message(self) -> (text: &'static str)
        ensures
            text@ == self.text(),
    {
        match self {
            CountError::Unreadable =>
                "worker observer must print an integer or {\"current_workers\": N}",
            CountError::Omitted => "worker observer JSON omitted a valid current_workers",
        }
    }
}

/// The count that a JSON value holds.
pub open spec fn count_in(tree: JsonTree) -> Option<u32> {
    match natural_in(member(tree, "current_workers"@)) {
        Some(count) => if count <= u32::MAX {
            Some(count as u32)
        } else {
            None
        },
        None => None,
    }
}

/// The count that an observer printed: an integer, else a member of a JSON object. `json` is what
/// the text between its outer white space is as JSON.
pub open spec fn worker_count(text: Seq<char>, json: Option<JsonTree>) -> Result<u32, CountError> {
    match count_of(trimmed(text)) {
        Some(count) => Ok(count),
        None => match json {
            Some(tree) => match count_in(tree) {
                Some(count) => Ok(count),
                None => Err(CountError::Omitted),
            },
            None => Err(CountError::Unreadable),
        },
    }
}

/// The count that a JSON value holds, if it holds one.
pub fn count_from_json(value: &Json) -> (count: Result<u32, CountError>)
    ensures
        match count {
            Ok(count) => count_in(value.tree()) == Some(count),
            Err(error) => error == CountError::Omitted && count_in(value.tree()) is None,
        },
{
    match value.get("current_workers") {
        Some(number) => match number.as_u64() {
            Some(count) => if count <= u32::MAX as u64 {
                Ok(count as u32)
            } else {
                Err(CountError::Omitted)
            },
            None => Err(CountError::Omitted),
        },
        None => Err(CountError::Omitted),
    }
}

/// Reads the count that an observer printed.
pub fn parse_worker_count(text: &str) -> (count: Result<u32, CountError>)
    ensures
        count == worker_count(text@, json_of_text(trimmed(text@))),
{
    let chars: Vec<char> = trim_text(text);
    if let Some(count) = parse_count(&chars) {
        return Ok(count);
    }
    let inner: String = from_chars(&chars);
    match json_from_text(inner.as_str()) {
        Some(value) => count_from_json(&value),
        None => Err(CountError::Unreadable),
    }
}

/// The arguments of a command with the target in place of every placeholder.
pub open spec fn rendered(argv: Seq<String>, desired: u32) -> Seq<Seq<char>> {
    argv.map_values(
        |argument: String| replaced(argument@, placeholder(), digits(desired as nat)),
    )
}

/// Puts the target into the arguments of a command.
pub fn render_argv(argv: &Vec<String>, desired: u32) -> (result: Vec<String>)
    ensures
        texts(result@) == rendered(argv@, desired),
{
    let count: String = decimal(desired as u64);
    let mut result: Vec<String> = Vec::new();
    proof {
        reveal_strlit("{desired_workers}");
    }
    for i in 0..argv.len()
        invariant
            count@ == digits(desired as nat),
            placeholder().len() > 0,
            result@.len() == i,
            forall|j: int|
                0 <= j < i ==> (#[trigger] result@[j])@ == replaced(
                    argv@[j]@,
                    placeholder(),
                    digits(desired as nat),
                ),
    {
        result.push(replace_text(argv[i].as_str(), "{desired_workers}", count.as_str()));
    }
    result
}

/// How the current count of workers is found.
#[derive(Clone, Debug)]
pub enum Observation {
    Known(u32),
    ReadFile(FilePath),
    Run(Vec<String>),
}

/// The way that a fleet's observer finds the count.
pub open spec fn observed_by(observer: WorkerObserverConfig, observation: Observation) -> bool {
    match observer {
        WorkerObserverConfig::Static { workers } => observation == Observation::Known(workers),
        WorkerObserverConfig::File { path } => observation matches Observation::ReadFile(file)
            && file@ == path@,
        WorkerObserverConfig::Command { argv } => observation matches Observation::Run(arguments)
            && texts(arguments@) == texts(argv@),
    }
}

/// The texts of arguments.
pub open spec fn texts(arguments: Seq<String>) -> Seq<Seq<char>> {
    arguments.map_values(|argument: String| argument@)
}

fn copy_arguments(argv: &Vec<String>) -> (copy: Vec<String>)
    ensures
        texts(copy@) == texts(argv@),
{
    let mut copy: Vec<String> = Vec::new();
    for i in 0..argv.len()
        invariant
            copy@.len() == i,
            forall|j: int| 0 <= j < i ==> (#[trigger] copy@[j])@ == argv@[j]@,
    {
        copy.push(argv[i].clone());
    }
    copy
}

/// Says how the current count of workers is found.
pub fn observation(config: &FleetConfig) -> (observation: Observation)
    ensures
        observed_by(config.observer, observation),
{
    match &config.observer {
        WorkerObserverConfig::Static { workers } => Observation::Known(*workers),
        WorkerObserverConfig::File { path } => Observation::ReadFile(path.copy()),
        WorkerObserverConfig::Command { argv } => Observation::Run(copy_arguments(argv)),
    }
}

/// How a fleet is told its target.
#[derive(Clone, Debug)]
pub enum Actuation {
    Nothing,
    WriteFile { path: FilePath, text: String },
    Run(Vec<String>),
}

/// The way that a fleet's actuator is told a target.
pub open spec fn actuated_by(actuator: ActuatorConfig, desired: u32, actuation: Actuation) -> bool {
    match actuator {
        ActuatorConfig::Off => actuation is Nothing,
        ActuatorConfig::TargetFile { path } => actuation matches Actuation::WriteFile {
            path: file,
            text,
        } && file@ == path@ && text@ == target_text_of(desired),
        ActuatorConfig::Command { argv } => actuation matches Actuation::Run(arguments) && texts(
            arguments@,
        ) == rendered(argv@, desired),
    }
}

/// Says how a fleet is told its target.
pub fn actuation(config: &FleetConfig, desired: u32) -> (actuation: Actuation)
    ensures
        actuated_by(config.actuator, desired, actuation),
{
    match &config.actuator {
        ActuatorConfig::Off => Actuation::Nothing,
        ActuatorConfig::TargetFile { path } => Actuation::WriteFile {
            path: path.copy(),
            text: target_text(desired),
        },
        ActuatorConfig::Command { argv } => Actuation::Run(render_argv(argv, desired)),
    }
}

/// What a target file holds.
pub open spec fn target_text_of(desired: u32) -> Seq<char> {
    digits(desired as nat) + "\n"@
}

/// Writes what a target file holds.
pub fn target_text(desired: u32) -> (text: String)
    ensures
        text@ == target_text_of(desired),
{
    join2(decimal(desired as u64).as_str(), "\n")
}

/// A count that is read from a target file is the target that was written to it, whatever JSON
/// its text would be.
pub proof fn law_target_file_reads_back(desired: u32, json: Option<JsonTree>)
    ensures
        worker_count(target_text_of(desired), json) == Ok::<u32, CountError>(desired),
{
    reveal_strlit("\n");
    law_trimmed_digits(desired as nat, "\n"@);
    law_count_of_digits(desired);
}

/// No placeholder is left in the arguments of a command.
pub proof fn law_no_placeholder_is_left(argv: Seq<String>, desired: u32, i: int)
    requires
        0 <= i < argv.len(),
    ensures
        !occurs(rendered(argv, desired)[i], placeholder()),
{
    let with = digits(desired as nat);
    lemma_digits(desired as nat);
    reveal_strlit("{desired_workers}");
    assert forall|k: int, j: int| 0 <= k < placeholder().len() && 0 <= j < with.len() implies
        #[trigger] placeholder()[k] != #[trigger] with[j] by {
        assert(is_digit(with[j]));
        assert(!is_digit(placeholder()[k]));
    }
    law_every_occurrence_is_replaced(argv[i]@, placeholder(), with);
}

/// A count is read from decimal digits between white space, whatever JSON the text would be.
pub proof fn law_decimal_count_is_read(
    count: u32,
    start: Seq<char>,
    end: Seq<char>,
    json: Option<JsonTree>,
)
    requires
        forall|i: int| 0 <= i < start.len() ==> is_space(#[trigger] start[i]),
        forall|i: int| 0 <= i < end.len() ==> is_space(#[trigger] end[i]),
    ensures
        worker_count(start + digits(count as nat) + end, json) == Ok::<u32, CountError>(count),
{
    law_trimmed_digits_between(count as nat, start, end);
    law_count_of_digits(count);
}

/// What is no decimal count is read as JSON: the natural number under its name, where it fits. What
/// else it is is told apart: no JSON, or JSON without such a number.
pub proof fn law_json_count_is_read(text: Seq<char>, json: Option<JsonTree>)
    requires
        count_of(trimmed(text)) is None,
    ensures
        match json {
            None => worker_count(text, json) == Err::<u32, CountError>(CountError::Unreadable),
            Some(tree) => match member(tree, "current_workers"@) {
                Some(JsonTree::Number(JsonNumber::Unsigned(count))) => if count <= u32::MAX {
                    worker_count(text, json) == Ok::<u32, CountError>(count as u32)
                } else {
                    worker_count(text, json) == Err::<u32, CountError>(CountError::Omitted)
                },
                _ => worker_count(text, json) == Err::<u32, CountError>(CountError::Omitted),
            },
        },
{
}

/// A command keeps its arguments, in number and order; one without a placeholder stays as it is, and
/// in one with a placeholder the decimal target stands where the first one was.
pub proof fn law_rendered_arguments(
    argv: Seq<String>,
    desired: u32,
    i: int,
    start: Seq<char>,
    end: Seq<char>,
)
    requires
        0 <= i < argv.len(),
    ensures
        rendered(argv, desired).len() == argv.len(),
        !occurs(argv[i]@, "{desired_workers}"@) ==> rendered(argv, desired)[i] == argv[i]@,
        argv[i]@ == start + "{desired_workers}"@ + end && !(exists|at: int|
            0 <= at < start.len() && occurs_at(argv[i]@, "{desired_workers}"@, at))
            ==> rendered(argv, desired)[i] == start + digits(desired as nat) + replaced(
            end,
            "{desired_workers}"@,
            digits(desired as nat),
        ),
{
    let pattern = "{desired_workers}"@;
    let with = digits(desired as nat);
    reveal_strlit("{desired_workers}");
    if !occurs(argv[i]@, pattern) {
        law_replaced_nowhere(argv[i]@, pattern, with);
    }
    if argv[i]@ == start + pattern + end && !(exists|at: int|
        0 <= at < start.len() && occurs_at(argv[i]@, pattern, at)) {
        law_replaced_at(start, pattern, end, with);
    }
}

/// A fleet is told every target in the way that its actuator has: a file holds the decimal target on
/// a line, whatever it is, and a command has it in its arguments.
pub proof fn law_every_target_is_told(actuator: ActuatorConfig, desired: u32, actuation: Actuation)
    requires
        actuated_by(actuator, desired, actuation),
    ensures
        actuation is Nothing <==> actuator is Off,
        actuator matches ActuatorConfig::TargetFile { path } ==> (
        actuation matches Actuation::WriteFile { path: file, text } && file@ == path@ && text@
            == digits(desired as nat) + "\n"@),
        actuator matches ActuatorConfig::Command { argv } ==> (actuation matches Actuation::Run(
            arguments,
        ) && arguments@.len() == argv@.len() && forall|i: int|
            0 <= i < argv@.len() && !occurs((#[trigger] argv@[i])@, "{desired_workers}"@)
                ==> arguments@[i]@ == argv@[i]@),
{
    if let ActuatorConfig::Command { argv } = actuator {
        let arguments = actuation->Run_0;
        assert(texts(arguments@).len() == arguments@.len());
        assert forall|i: int|
            0 <= i < argv@.len() && !occurs(
                (#[trigger] argv@[i])@,
                "{desired_workers}"@,
            ) implies arguments@[i]@ == argv@[i]@ by {
            assert(texts(arguments@)[i] == arguments@[i]@);
            law_replaced_nowhere(argv@[i]@, placeholder(), digits(desired as nat));
        }
    }
}

/// A fleet's workers are counted in the way that its observer has: a fixed count is that count.
pub proof fn law_every_count_is_found(observer: WorkerObserverConfig, observation: Observation)
    requires
        observed_by(observer, observation),
    ensures
        observer matches WorkerObserverConfig::Static { workers } ==> observation
            == Observation::Known(workers),
        observer matches WorkerObserverConfig::File { path } ==> (
        observation matches Observation::ReadFile(file) && file@ == path@),
        observer matches WorkerObserverConfig::Command { argv } ==> (
        observation matches Observation::Run(arguments) && arguments@.len() == argv@.len()
            && forall|i: int|
            0 <= i < argv@.len() ==> (#[trigger] arguments@[i])@ == argv@[i]@),
{
    if let WorkerObserverConfig::Command { argv } = observer {
        let arguments = observation->Run_0;
        assert(texts(arguments@).len() == arguments@.len());
        assert(texts(argv@).len() == argv@.len());
        assert forall|i: int| 0 <= i < argv@.len() implies (#[trigger] arguments@[i])@
            == argv@[i]@ by {
            assert(texts(arguments@)[i] == texts(argv@)[i]);
        }
    }
}

} // verus!

//! What a run is asked to do, and the ways in which it can end before
//! anything is compared.

use vstd::prelude::*;
use vstd::string::StringExecFns;

verus! {

/// The sources to compare and the destination of the report.
#[derive(Clone, Debug, PartialEq, Eq)]
pub struct Invocation {
    /// The first source.
    pub source_a: String,
    /// The second source.
    pub source_b: String,
    /// Where the report goes; standard output where none is named.
    pub target: Option<String>,
}

/// Why a run ends without a report.
#[derive(Clone, Debug, PartialEq, Eq)]
pub enum Failure {
    /// No source was named.
    NoSources,
    /// Only one source was named.
    OneSource,
    /// The first source could not be opened.
    SourceA {
        /// The source as it was named.
        path: String,
        /// The system's account of the error, as it is to be shown.
        detail: String,
    },
    /// The second source could not be opened.
    SourceB {
        /// The source as it was named.
        path: String,
        /// The system's account of the error, as it is to be shown.
        detail: String,
    },
    /// The destination could not be created.
    Destination {
        /// The system's account of the error, as it is to be shown.
        detail: String,
    },
}

/// The exit status of a run that wrote its report.
pub const SUCCESS: i32 = 0;

impl Failure {
    /// The exit status that stands for the failure.
    pub open spec fn status(self) -> int {
        match self {
            Failure::NoSources => 1,
            Failure::OneSource => 2,
            Failure::SourceA { .. } => 3,
            Failure::SourceB { .. } => 4,
            Failure::Destination { .. } => 5,
        }
    }

    /// What the error channel is told of the failure.
    pub open spec fn text(self) -> Seq<char> {
        match self {
            Failure::NoSources => "no files specified\n"@,
            Failure::OneSource => "only one file specified\n"@,
            Failure::SourceA { path, detail } => "error opening "@ + path@ + "\n"@ + detail@
                + "\n"@,
            Failure::SourceB { path, detail } => "error opening "@ + path@ + "\n"@ + detail@
                + "\n"@,
            Failure::Destination { detail } => "problem opening file for writing: "@ + detail@
                + "\n"@,
        }
    }

    /// The exit status that stands for the failure.
    pub fn exit_code(&self) -> (code: i32)
        ensures
            code == self.status(),
    {
        match self {
            Failure::NoSources => 1,
            Failure::OneSource => 2,
            Failure::SourceA { .. } => 3,
            Failure::SourceB { .. } => 4,
            Failure::Destination { .. } => 5,
        }
    }

    /// What the error channel is told of the failure: which step failed,
    /// on which source, and the system's account of the error.
    pub fn message(&self) -> (message: String)
        ensures
            message@ == self.text(),
    {
        match self {
            Failure::NoSources => String::from_str("no files specified\n"),
            Failure::OneSource => String::from_str("only one file specified\n"),
            Failure::SourceA { path, detail } => could_not_open(path.as_str(), detail.as_str()),
            Failure::SourceB { path, detail } => could_not_open(path.as_str(), detail.as_str()),
            Failure::Destination { detail } => {
                let mut message = String::from_str("problem opening file for writing: ");
                message.append(detail.as_str());
                message.append("\n");
                message
            },
        }
    }
}

/// The message on a source that could not be opened.
fn could_not_open(path: &str, detail: &str) -> (message: String)
    ensures
        message@ == "error opening "@ + path@ + "\n"@ + detail@ + "\n"@,
{
    let mut message = String::from_str("error opening ");
    message.append(path);
    message.append("\n");
    message.append(detail);
    message.append("\n");
    message
}

/// Reads the arguments of a run, the program's own name left out: the two
/// sources and, where there is a third argument, the destination. Further
/// arguments are ignored.
pub fn parse_arguments(args: &Vec<String>) -> (parsed: Result<Invocation, Failure>)
    ensures
        args.len() == 0 ==> parsed == Err::<Invocation, Failure>(Failure::NoSources),
        args.len() == 1 ==> parsed == Err::<Invocation, Failure>(Failure::OneSource),
        args.len() >= 2 ==> parsed == Ok::<Invocation, Failure>(
            Invocation {
                source_a: args[0],
                source_b: args[1],
                target: if args.len() == 2 {
                    None
                } else {
                    Some(args[2])
                },
            },
        ),
{
    if args.len() == 0 {
        Err(Failure::NoSources)
    } else if args.len() == 1 {
        Err(Failure::OneSource)
    } else {
        let target = if args.len() == 2 {
            None
        } else {
            Some(args[2].clone())
        };
        Ok(Invocation { source_a: args[0].clone(), source_b: args[1].clone(), target })
    }
}

/// Whether two failures are failures of the same step.
pub open spec fn same_step(one: Failure, other: Failure) -> bool {
    match (one, other) {
        (Failure::NoSources, Failure::NoSources) => true,
        (Failure::OneSource, Failure::OneSource) => true,
        (Failure::SourceA { .. }, Failure::SourceA { .. }) => true,
        (Failure::SourceB { .. }, Failure::SourceB { .. }) => true,
        (Failure::Destination { .. }, Failure::Destination { .. }) => true,
        _ => false,
    }
}

/// Every step has an exit status of its own for its failure, and none has
/// that of success.
pub proof fn lemma_statuses_distinct(one: Failure, other: Failure)
    ensures
        one.status() != SUCCESS,
        one.status() == other.status() <==> same_step(one, other),
{
}

} // verus!

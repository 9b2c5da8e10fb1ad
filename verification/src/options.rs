//! What a run is asked to do: the container for the stacks, and a check or
//! a solve with its settings.

use vstd::prelude::*;
use crate::instruction::same_text;

verus! {

/// The solver to use.
#[derive(Debug, Clone, Copy, PartialEq, Eq, Structural)]
pub enum SolveStrategy {
    AStar,
    ParAStar,
    NaiveInsert,
    SmartInsert,
}

/// The container that holds the stacks.
#[derive(Debug, Clone, Copy, PartialEq, Eq, Structural)]
pub enum StackType {
    LinkedList,
    VecDeque,
    Vec,
}

/// The settings of a check.
#[derive(Debug)]
pub struct CheckConfig {
    /// Whether the stacks are shown after every move.
    pub debug_states: bool,
    /// The stack to start from, its top first.
    pub raw_stack: Vec<u32>,
}

/// What to do.
#[derive(Debug)]
pub enum Command {
    /// Replay moves and say whether they solve the puzzle.
    Check(CheckConfig),
    /// Find moves that solve the puzzle.
    Solve {
        /// The solver.
        strategy: SolveStrategy,
        /// The number of threads for the parallel search, where it is given.
        par_threads: Option<usize>,
        /// The stack to start from, its top first.
        raw_stack: Vec<u32>,
    },
}

/// A run's settings.
#[derive(Debug)]
pub struct Options {
    pub stack_type: StackType,
    pub command: Command,
}

/// The text in lower case.
pub uninterp spec fn lowercase(text: Seq<char>) -> Seq<char>;

/// `str::to_lowercase` of the standard library: the result is the text in
/// lower case, as Unicode defines it. Nothing more is claimed than that
/// the same text gives the same result.
#[verifier::external_body]
fn to_lowercase(text: &str) -> (lower: String)
    ensures
        lower@ == lowercase(text@),
{
    text.to_lowercase()
}

impl SolveStrategy {
    /// The solver that a name in lower case stands for.
    pub open spec fn named(name: Seq<char>) -> Option<SolveStrategy> {
        if name == "astar"@ || name == "a*"@ {
            Some(SolveStrategy::AStar)
        } else if name == "par-astar"@ || name == "para*"@ {
            Some(SolveStrategy::ParAStar)
        } else if name == "naive-insert"@ || name == "naive"@ {
            Some(SolveStrategy::NaiveInsert)
        } else if name == "smart-insert"@ || name == "smart"@ {
            Some(SolveStrategy::SmartInsert)
        } else {
            None
        }
    }

    /// Reads a solver's name that is in lower case already. Any other text
    /// is handed back.
    pub fn from_lowercase(name: &str) -> (read: Result<SolveStrategy, String>)
        ensures
            match read {
                Ok(strategy) => SolveStrategy::named(name@) == Some(strategy),
                Err(text) => SolveStrategy::named(name@).is_none() && text@ == name@,
            },
    {
        if same_text(name, "astar") || same_text(name, "a*") {
            Ok(SolveStrategy::AStar)
        } else if same_text(name, "par-astar") || same_text(name, "para*") {
            Ok(SolveStrategy::ParAStar)
        } else if same_text(name, "naive-insert") || same_text(name, "naive") {
            Ok(SolveStrategy::NaiveInsert)
        } else if same_text(name, "smart-insert") || same_text(name, "smart") {
            Ok(SolveStrategy::SmartInsert)
        } else {
            Err(name.to_owned())
        }
    }

    /// Reads a solver's name, in whatever case it is written. Any other text
    /// is handed back in lower case.
    pub fn parse(s: &str) -> (read: Result<SolveStrategy, String>)
        ensures
            match read {
                Ok(strategy) => SolveStrategy::named(lowercase(s@)) == Some(strategy),
                Err(text) => SolveStrategy::named(lowercase(s@)).is_none() && text@ == lowercase(
                    s@,
                ),
            },
    {
        let lower = to_lowercase(s);
        SolveStrategy::from_lowercase(lower.as_str())
    }
}

impl StackType {
    /// The container that a name in lower case stands for.
    pub open spec fn named(name: Seq<char>) -> Option<StackType> {
        if name == "linked-list"@ || name == "ll"@ {
            Some(StackType::LinkedList)
        } else if name == "vec-deque"@ || name == "vd"@ {
            Some(StackType::VecDeque)
        } else if name == "vec"@ || name == "v"@ {
            Some(StackType::Vec)
        } else {
            None
        }
    }

    /// Reads a container's name that is in lower case already. Any other
    /// text is handed back.
    pub fn from_lowercase(name: &str) -> (read: Result<StackType, String>)
        ensures
            match read {
                Ok(kind) => StackType::named(name@) == Some(kind),
                Err(text) => StackType::named(name@).is_none() && text@ == name@,
            },
    {
        if same_text(name, "linked-list") || same_text(name, "ll") {
            Ok(StackType::LinkedList)
        } else if same_text(name, "vec-deque") || same_text(name, "vd") {
            Ok(StackType::VecDeque)
        } else if same_text(name, "vec") || same_text(name, "v") {
            Ok(StackType::Vec)
        } else {
            Err(name.to_owned())
        }
    }

    /// Reads a container's name, in whatever case it is written. Any other
    /// text is handed back in lower case.
    pub fn parse(s: &str) -> (read: Result<StackType, String>)
        ensures
            match read {
                Ok(kind) => StackType::named(lowercase(s@)) == Some(kind),
                Err(text) => StackType::named(lowercase(s@)).is_none() && text@ == lowercase(s@),
            },
    {
        let lower = to_lowercase(s);
        StackType::from_lowercase(lower.as_str())
    }
}

impl std::str::FromStr for SolveStrategy {
    type Err = String;

    /// Reads a solver's name, as `parse` does.
    fn from_str(s: &str) -> (read: Result<Self, Self::Err>)
        ensures
            match read {
                Ok(strategy) => SolveStrategy::named(lowercase(s@)) == Some(strategy),
                Err(text) => SolveStrategy::named(lowercase(s@)).is_none() && text@ == lowercase(
                    s@,
                ),
            },
    {
        SolveStrategy::parse(s)
    }
}

impl std::str::FromStr for StackType {
    type Err = String;

    /// Reads a container's name, as `parse` does.
    fn from_str(s: &str) -> (read: Result<Self, Self::Err>)
        ensures
            match read {
                Ok(kind) => StackType::named(lowercase(s@)) == Some(kind),
                Err(text) => StackType::named(lowercase(s@)).is_none() && text@ == lowercase(s@),
            },
    {
        StackType::parse(s)
    }
}

} // verus!

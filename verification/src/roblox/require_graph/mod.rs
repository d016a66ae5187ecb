//! The require graph: which module requires which.
pub mod blanking;
pub mod building;
pub mod building_laws;
pub mod call_laws;
pub mod chain;
pub mod comment_laws;
pub mod cycle_laws;
pub mod cycles;
pub mod files;
pub mod graph;
pub mod graph_laws;
pub mod resolve;
pub mod resolve_laws;
pub mod scan;
pub mod scan_laws;
pub mod source_laws;
pub mod string_laws;
pub mod string_require;
pub mod walk_laws;

use vstd::prelude::*;
use crate::errors::{hinted, hinted_failure, Failure};
use crate::text::{owned, quote, quoted, same_text, trim, trimmed};

verus! {

/// Which way an edge is followed.
#[derive(Debug, Clone, Copy, PartialEq, Eq, Structural)]
pub enum Direction {
    Dependencies,
    Dependents,
}

/// The directions a word asks for.
pub open spec fn directions_named(word: Seq<char>) -> Option<Seq<Direction>> {
    if word == "both"@ {
        Some(seq![Direction::Dependencies, Direction::Dependents])
    } else if word == "dependencies"@ {
        Some(seq![Direction::Dependencies])
    } else if word == "dependents"@ {
        Some(seq![Direction::Dependents])
    } else {
        None
    }
}

/// The word a request asks with, `both` where it has none.
pub open spec fn direction_word(value: Option<Seq<char>>) -> Seq<char> {
    trimmed(
        match value {
            Some(word) => word,
            None => "both"@,
        },
    )
}

impl Direction {
    /// Reads the directions of a request.
    pub fn parse(value: Option<&str>) -> (r: Result<Vec<Direction>, Failure>)
        ensures
            match r {
                Ok(directions) => directions_named(direction_word(value.deep_view())) == Some(
                    directions@,
                ),
                Err(failure) => directions_named(direction_word(value.deep_view())) is None
                    && failure.deep_view() == hinted_failure(
                    "direction must be \"dependencies\", \"dependents\", or \"both\", got "@
                        + quoted(direction_word(value.deep_view())),
                    "omit direction to get both"@,
                ),
            },
    {
        let word = trim(
            match value {
                Some(word) => word,
                None => "both",
            },
        );
        if same_text(word, "both") {
            Ok(vec![Direction::Dependencies, Direction::Dependents])
        } else if same_text(word, "dependencies") {
            Ok(vec![Direction::Dependencies])
        } else if same_text(word, "dependents") {
            Ok(vec![Direction::Dependents])
        } else {
            let mut message = owned(
                "direction must be \"dependencies\", \"dependents\", or \"both\", got ",
            );
            message.append(quote(word).as_str());
            Err(hinted(message, "omit direction to get both"))
        }
    }
}

} // verus!

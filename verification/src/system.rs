//! The system the library runs on.
use vstd::prelude::*;

verus! {

/// What is known of the system at hand. Only `System::here` makes one.
#[derive(Debug)]
pub struct System {
    backslashes: bool,
}

impl System {
    /// Whether backslashes part paths, as on Windows.
    pub closed spec fn splits_at_backslashes(&self) -> bool {
        self.backslashes
    }

    /// `std::path::is_separator`, on a backslash. The answer is the system's own, and nothing is claimed
    /// of it.
    #[verifier::external_body]
    pub(crate) fn here() -> (system: System) {
        System { backslashes: std::path::is_separator('\\') }
    }

    /// Whether backslashes part paths, as on Windows.
    pub fn has_backslashes(&self) -> (b: bool)
        ensures
            b == self.splits_at_backslashes(),
    {
        self.backslashes
    }
}

} // verus!

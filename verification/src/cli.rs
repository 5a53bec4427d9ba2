//! The ways in which the aircraft table can be shown.

use vstd::prelude::*;

verus! {

/// How received aircraft are presented.
#[derive(Debug, Clone, Copy, PartialEq, Eq, Structural)]
pub enum DisplayMode {
    Web,
    Interactive,
    Stream,
}

impl DisplayMode {
    /// The name of the mode as it is written on the command line.
    pub open spec fn spec_name(self) -> Seq<char> {
        match self {
            DisplayMode::Web => "web"@,
            DisplayMode::Interactive => "interactive"@,
            DisplayMode::Stream => "stream"@,
        }
    }

    /// Returns the name of the mode as it is written on the command line.
    pub fn name(&self) -> (name: &'static str)
        ensures
            name@ == self.spec_name(),
    {
        match self {
            DisplayMode::Web => "web",
            DisplayMode::Interactive => "interactive",
            DisplayMode::Stream => "stream",
        }
    }
}

} // verus!

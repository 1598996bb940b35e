use vstd::prelude::*;

verus! {

/// Outcome of one game from the first engine's point of view.
#[derive(Clone, Copy, Debug, PartialEq, Eq, Structural)]
pub enum GameResult {
    Win,
    Draw,
    Loss,
}

/// Decision of a sequential probability ratio test.
#[derive(Clone, Copy, Debug, PartialEq, Eq, Structural)]
pub enum SprtState {
    Continue,
    Accept,
    Reject,
}

impl SprtState {
    pub open spec fn name_spec(self) -> Seq<char> {
        match self {
            SprtState::Continue => "Continue"@,
            SprtState::Accept => "Accept"@,
            SprtState::Reject => "Reject"@,
        }
    }

    /// The state's name: "Continue", "Accept" or "Reject".
    pub fn as_str(&self) -> (r: &'static str)
        ensures
            r@ == self.name_spec(),
    {
        match self {
            SprtState::Continue => "Continue",
            SprtState::Accept => "Accept",
            SprtState::Reject => "Reject",
        }
    }
}

} // verus!

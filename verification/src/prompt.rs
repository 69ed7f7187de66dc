//! What the answer to the question whether to create a new network means.

use vstd::prelude::*;
use vstd::string::*;

verus! {

/// What to do about the network.
#[derive(Clone, Copy, Debug, PartialEq, Eq, Structural)]
pub enum Choice {
    /// Create a new network.
    Create,
    /// Load the stored network.
    Load,
    /// Ask again: the answer was neither yes nor no.
    AskAgain,
}

/// What the answer `answer` means: `y` is yes, `n` is no, and anything else
/// is no answer.
pub open spec fn choice_spec(answer: Seq<char>) -> Choice {
    if answer == "y"@ {
        Choice::Create
    } else if answer == "n"@ {
        Choice::Load
    } else {
        Choice::AskAgain
    }
}

/// What the answer `answer`, trimmed and in lower case, means.
pub fn choice(answer: &str) -> (chosen: Choice)
    ensures
        chosen == choice_spec(answer@),
{
    let given: String = answer.to_owned();
    if given == "y".to_owned() {
        Choice::Create
    } else if given == "n".to_owned() {
        Choice::Load
    } else {
        Choice::AskAgain
    }
}

} // verus!

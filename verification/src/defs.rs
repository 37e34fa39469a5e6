use vstd::prelude::*;

verus! {

/// Points a player needs to win the game.
pub const SCORE_WIN: ScoreType = 10000;

/// Number of dice in play.
pub const NUM_DICE: usize = 6;

/// A score or a number of points.
pub type ScoreType = i32;

/// What a player does after holding dice.
#[derive(Clone, Copy, Debug, PartialEq, Eq, Structural)]
pub enum Action {
    Stay,
    Roll,
}

impl Default for Action {
    fn default() -> (r: Action)
        ensures
            r == Action::Stay,
    {
        Action::Stay
    }
}

impl Action {
    /// The action's name: `Stay` or `Roll`.
    pub fn to_string(&self) -> (s: String)
        ensures
            s@ == action_name(*self),
    {
        match self {
            Action::Stay => String::from_str("Stay"),
            Action::Roll => String::from_str("Roll"),
        }
    }
}

/// The text that names an action.
pub open spec fn action_name(a: Action) -> Seq<char> {
    match a {
        Action::Stay => "Stay"@,
        Action::Roll => "Roll"@,
    }
}

} // verus!

//! The errors a score board operation can return. All of them are
//! recoverable and leave the board exactly as it was.

use vstd::prelude::*;
use vstd::string::StringExecFns;

verus! {

/// The operation during which a contest was looked up and not found.
#[derive(Debug)]
pub enum Action {
    /// A score update.
    Update,
    /// A removal from the board.
    Removal,
}

/// An error returned by a score board operation.
#[derive(Debug)]
pub enum BoardError {
    /// A team was paired against itself when starting a game.
    SelfPlayError { name: String },
    /// A team named when starting a game is already in an active game.
    TeamBusyError { name: String },
    /// An update or a removal named a team pair with no matching active game.
    ContestNotFoundError { action: Action },
}

impl BoardError {
    /// The error's message, as a sequence of characters.
    pub open spec fn message_view(&self) -> Seq<char> {
        match self {
            BoardError::SelfPlayError { name } => name@ + " cannot play with itself"@,
            BoardError::TeamBusyError { name } => name@ + " is currently playing a game"@,
            BoardError::ContestNotFoundError { action: Action::Update } => {
                "Couldn't find a game for update"@
            },
            BoardError::ContestNotFoundError { action: Action::Removal } => {
                "Couldn't find a game for removal"@
            },
        }
    }

    /// Renders the error's message.
    pub fn message(&self) -> (r: String)
        ensures
            r@ == self.message_view(),
    {
        match self {
            BoardError::SelfPlayError { name } => {
                let mut r = name.clone();
                r.append(" cannot play with itself");
                r
            },
            BoardError::TeamBusyError { name } => {
                let mut r = name.clone();
                r.append(" is currently playing a game");
                r
            },
            BoardError::ContestNotFoundError { action: Action::Update } => {
                String::from_str("Couldn't find a game for update")
            },
            BoardError::ContestNotFoundError { action: Action::Removal } => {
                String::from_str("Couldn't find a game for removal")
            },
        }
    }
}

} // verus!

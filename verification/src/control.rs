//! The decisions of a player who watches the screen, solves the board that
//! shows up and plays the solution: which state follows which observation.
//!
//! The player itself sleeps, looks at the screen, and clicks; here is only
//! what it decides.

use vstd::prelude::*;
use crate::board::Step;
use crate::solver::{InitialBoard, SolveResult};

verus! {

/// What the player is about to do.
#[derive(Debug, PartialEq, Eq)]
pub enum BoardState {
    /// Wait, then look for a board.
    SleepSearch,
    /// Wait until nothing moves, then look whether the board is still the
    /// same.
    SleepValidate(InitialBoard),
    /// Wait, then look whether the board without a solution is still there.
    SleepUnsolvable(InitialBoard),
    /// Look for a board.
    Search,
    /// Look whether the board is still the same.
    Validate(InitialBoard),
    /// Solve the board.
    Ready(InitialBoard),
    /// Play the moves.
    Solve(Vec<Step>),
    /// Look whether the board without a solution is still there.
    Unsolvable(InitialBoard),
}

/// What the player tells its user after a decision.
#[derive(Clone, Copy, Debug, PartialEq, Eq, Structural)]
pub enum Notice {
    /// Nothing to tell.
    Silent,
    /// A board with the canonical composition was seen.
    FoundBoard,
    /// The board did not change while the player waited.
    BoardReady,
    /// The board changed while the player waited.
    BoardChanged,
    /// A solution was found.
    Solved,
    /// The search ran out of time: the player skips to the next game.
    TimedOut,
    /// The board has no solution.
    NoSolution,
}

impl BoardState {
    /// How many seconds the player waits in this state, where it waits.
    pub open spec fn pause(self) -> Option<u64> {
        match self {
            BoardState::SleepSearch => Some(1),
            BoardState::SleepValidate(_) => Some(2),
            BoardState::SleepUnsolvable(_) => Some(1),
            _ => None,
        }
    }

    /// The state after the wait of this state.
    pub open spec fn woken(self) -> BoardState {
        match self {
            BoardState::SleepSearch => BoardState::Search,
            BoardState::SleepValidate(board) => BoardState::Validate(board),
            BoardState::SleepUnsolvable(board) => BoardState::Unsolvable(board),
            other => other,
        }
    }

    /// The state and the notice after a look at the screen, which showed the
    /// board `seen` or none with the canonical composition.
    pub open spec fn observed(self, seen: Option<InitialBoard>) -> (BoardState, Notice) {
        match self {
            BoardState::Search => match seen {
                Some(board) => (BoardState::SleepValidate(board), Notice::FoundBoard),
                None => (BoardState::SleepSearch, Notice::Silent),
            },
            BoardState::Validate(board) => match seen {
                Some(confirmation) if board@ == confirmation@ => (
                    BoardState::Ready(board),
                    Notice::BoardReady,
                ),
                _ => (BoardState::SleepValidate(board), Notice::BoardChanged),
            },
            BoardState::Unsolvable(unsolvable) => match seen {
                Some(board) if board@ == unsolvable@ => (
                    BoardState::SleepUnsolvable(board),
                    Notice::Silent,
                ),
                Some(board) => (BoardState::SleepValidate(board), Notice::FoundBoard),
                None => (BoardState::SleepSearch, Notice::Silent),
            },
            other => (other, Notice::Silent),
        }
    }

    /// The state and the notice after the search on the board of this state
    /// ended with `result`.
    pub open spec fn searched(self, result: SolveResult) -> (BoardState, Notice) {
        match self {
            BoardState::Ready(board) => match result {
                SolveResult::Solution(steps) => (BoardState::Solve(steps), Notice::Solved),
                SolveResult::Timeout => (BoardState::SleepSearch, Notice::TimedOut),
                SolveResult::Unsolvable => (BoardState::SleepUnsolvable(board), Notice::NoSolution),
            },
            other => (other, Notice::Silent),
        }
    }

    /// The state after the moves of this state were played.
    pub open spec fn played(self) -> BoardState {
        match self {
            BoardState::Solve(_) => BoardState::SleepSearch,
            other => other,
        }
    }

    /// How many seconds the player waits in this state, where it waits.
    pub fn sleep_seconds(&self) -> (seconds: Option<u64>)
        ensures
            seconds == self.pause(),
    {
        match self {
            BoardState::SleepSearch => Some(1),
            BoardState::SleepValidate(_) => Some(2),
            BoardState::SleepUnsolvable(_) => Some(1),
            _ => None,
        }
    }

    /// The state after the wait of this state. A state without a wait stays
    /// as it is.
    pub fn after_sleep(self) -> (next: BoardState)
        ensures
            next == self.woken(),
    {
        match self {
            BoardState::SleepSearch => BoardState::Search,
            BoardState::SleepValidate(board) => BoardState::Validate(board),
            BoardState::SleepUnsolvable(board) => BoardState::Unsolvable(board),
            other => other,
        }
    }

    /// The state after a look at the screen, which showed the board `seen`
    /// or none with the canonical composition, and what to tell the user. A
    /// state that does not look at the screen stays as it is.
    pub fn after_scan(self, seen: Option<InitialBoard>) -> (next: (BoardState, Notice))
        ensures
            next == self.observed(seen),
    {
        match self {
            BoardState::Search => match seen {
                Some(board) => (BoardState::SleepValidate(board), Notice::FoundBoard),
                None => (BoardState::SleepSearch, Notice::Silent),
            },
            BoardState::Validate(board) => match seen {
                Some(confirmation) => {
                    if board.same_cells(confirmation) {
                        (BoardState::Ready(board), Notice::BoardReady)
                    } else {
                        (BoardState::SleepValidate(board), Notice::BoardChanged)
                    }
                },
                None => (BoardState::SleepValidate(board), Notice::BoardChanged),
            },
            BoardState::Unsolvable(unsolvable) => match seen {
                Some(board) => {
                    if board.same_cells(unsolvable) {
                        (BoardState::SleepUnsolvable(board), Notice::Silent)
                    } else {
                        (BoardState::SleepValidate(board), Notice::FoundBoard)
                    }
                },
                None => (BoardState::SleepSearch, Notice::Silent),
            },
            other => (other, Notice::Silent),
        }
    }

    /// The state after the search on the board of this state ended with
    /// `result`, and what to tell the user. A state without a board to solve
    /// stays as it is.
    pub fn after_solve(self, result: SolveResult) -> (next: (BoardState, Notice))
        ensures
            next == self.searched(result),
    {
        match self {
            BoardState::Ready(board) => match result {
                SolveResult::Solution(steps) => (BoardState::Solve(steps), Notice::Solved),
                SolveResult::Timeout => (BoardState::SleepSearch, Notice::TimedOut),
                SolveResult::Unsolvable => (BoardState::SleepUnsolvable(board), Notice::NoSolution),
            },
            other => (other, Notice::Silent),
        }
    }

    /// The state after the moves of this state were played. A state without
    /// moves stays as it is.
    pub fn after_apply(self) -> (next: BoardState)
        ensures
            next == self.played(),
    {
        match self {
            BoardState::Solve(_) => BoardState::SleepSearch,
            other => other,
        }
    }
}

} // verus!

//! The command line: which backup to run, and how much to log.

use vstd::prelude::*;
use crate::logging::verbosity_from_counts;

verus! {

/// Back up the messaging service's dialogs.
#[derive(Clone, Copy, Debug, PartialEq, Eq, Structural)]
pub struct LupinTelegramGet;

/// Back up the project boards.
#[derive(Clone, Copy, Debug, PartialEq, Eq, Structural)]
pub struct LupinTrelloGet;

/// The backup to run.
#[derive(Clone, Copy, Debug, PartialEq, Eq, Structural)]
pub enum LupinSubcommand {
    Telegram(LupinTelegramGet),
    Trello(LupinTrelloGet),
}

/// The parsed command line.
#[derive(Clone, Copy, Debug, PartialEq, Eq, Structural)]
pub struct Lupin {
    pub command: LupinSubcommand,
    /// How many times more output was asked for.
    pub verbose: u8,
    /// How many times less output was asked for.
    pub quiet: u8,
}

impl Lupin {
    /// The log verbosity these flags ask for.
    pub fn verbosity(&self) -> (r: i8)
        ensures
            r as int == if 1 + self.verbose - self.quiet > i8::MAX {
                i8::MAX as int
            } else if 1 + self.verbose - self.quiet < i8::MIN {
                i8::MIN as int
            } else {
                1 + self.verbose - self.quiet
            },
    {
        verbosity_from_counts(self.verbose, self.quiet)
    }
}

} // verus!

//! The session record shared by the drivers around the library: it keeps
//! the one fact downstream stages need, whether any lexical error has been
//! reported since the record was last reset.

use vstd::prelude::*;

verus! {

/// A scanning session: remembers whether any error was reported.
pub struct Lox {
    pub had_error: bool,
}

impl Lox {
    pub fn new() -> (l: Lox)
        ensures
            !l.had_error,
    {
        Lox { had_error: false }
    }
}

impl Default for Lox {
    fn default() -> (l: Lox)
        ensures
            !l.had_error,
    {
        Lox::new()
    }
}

} // verus!

use vstd::prelude::*;

verus! {

/// What can go wrong when a maze is read or solved.
#[derive(Clone, Debug, PartialEq, Eq)]
pub enum Error {
    /// No pixel has the start colour.
    MissingStart,
    /// No pixel has the goal colour.
    MissingGoal,
    /// A cost was read while still "infinite" where a finite one was needed.
    InconsistentState,
    /// An input or output failure, with its message.
    IOError(String),
}

impl Error {
    /// A one-line description of the error.
    pub fn message(&self) -> (m: String)
        ensures
            match self {
                Error::MissingStart => m@ == "Couldn't find the starting point"@,
                Error::MissingGoal => m@ == "Couldn't find the ending point"@,
                Error::InconsistentState => m@ == "A node's cost was read before it was set"@,
                Error::IOError(e) => m@ == e@,
            },
    {
        match self {
            Error::MissingStart => String::from_str("Couldn't find the starting point"),
            Error::MissingGoal => String::from_str("Couldn't find the ending point"),
            Error::InconsistentState => String::from_str("A node's cost was read before it was set"),
            Error::IOError(m) => m.clone(),
        }
    }
}

} // verus!

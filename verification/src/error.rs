use vstd::prelude::*;

verus! {

/// The failures the composition model can report.
///
/// Parse and lookup failures are fatal to loading one composition and are
/// surfaced to the caller; adjacency, derivation and mutation failures are
/// recoverable and show up as `None` results instead.
#[derive(Clone, Copy, Debug, PartialEq, Eq, Structural)]
pub enum MusicError {
    /// A note-name token does not resolve in the frequency table.
    Lookup,
    /// A notation token violates the grammar (wrong arity of a `:` or `/`
    /// group, or an empty or malformed token).
    Parse,
    /// An index or cursor is out of range, a required part is missing, or a
    /// continuation has nothing to extend.
    Structure,
}

impl MusicError {
    /// A short human-readable description of the failure.
    pub fn describe(&self) -> (s: &'static str)
        ensures
            *self == MusicError::Lookup ==> s@ == "note name does not resolve in the frequency table"@,
            *self == MusicError::Parse ==> s@ == "notation token violates the grammar"@,
            *self == MusicError::Structure ==> s@ == "index out of range or nothing to extend"@,
    {
        match self {
            MusicError::Lookup => "note name does not resolve in the frequency table",
            MusicError::Parse => "notation token violates the grammar",
            MusicError::Structure => "index out of range or nothing to extend",
        }
    }
}

} // verus!

use vstd::prelude::*;

verus! {

/// The errors of the store.
///
/// `KeyNotFoundError` is the one expected, recoverable condition: callers
/// branch on it to render "Key not found". `Corruption` marks a log record
/// that does not decode, which is fatal for the store that hits it.
/// `WrongEngineError` arises only at startup, when a data directory already
/// belongs to a different engine. `Io` stands for a filesystem or network
/// failure reported by the unverified edge around the library.
#[derive(Clone, Copy, Debug, PartialEq, Eq, Structural)]
pub enum KvsError {
    Io,
    Corruption,
    KeyNotFoundError,
    WrongEngineError,
}

/// The message that each error renders to.
pub open spec fn error_text(e: KvsError) -> Seq<char> {
    match e {
        KvsError::Io => "IO error"@,
        KvsError::Corruption => "corrupt log record"@,
        KvsError::KeyNotFoundError => "Key not found"@,
        KvsError::WrongEngineError => "wrong engine for this data directory"@,
    }
}

impl KvsError {
    /// Render the error in words, as the command-line tools print it.
    pub fn text(&self) -> (r: String)
        ensures
            r@ == error_text(*self),
    {
        match self {
            KvsError::Io => "IO error".to_owned(),
            KvsError::Corruption => "corrupt log record".to_owned(),
            KvsError::KeyNotFoundError => "Key not found".to_owned(),
            KvsError::WrongEngineError => "wrong engine for this data directory".to_owned(),
        }
    }
}

} // verus!

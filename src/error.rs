//! The engine's error taxonomy. Each error carries the message shown to the
//! user.

use vstd::prelude::*;
use vstd::string::*;

verus! {

pub enum EngineError {
    /// The HEAD request failed or did not answer 2xx.
    ProbeFailed(String),
    /// Reading the response stream failed.
    Transport(String),
    /// A segment request did not answer 2xx.
    HttpStatus(String),
    /// Creating, writing or renaming a file failed.
    Io(String),
    /// The job's cancel flag was observed.
    Cancelled,
    /// No job with the given id.
    NotFound(String),
    /// The request does not apply to the job or the value is out of range.
    InvalidRequest(String),
    /// The ledger or the settings could not be saved.
    Persist(String),
}

impl EngineError {
    /// The message shown to the user.
    pub fn message(&self) -> (r: String)
        ensures
            r@ == match self {
                EngineError::ProbeFailed(m) => m@,
                EngineError::Transport(m) => m@,
                EngineError::HttpStatus(m) => m@,
                EngineError::Io(m) => m@,
                EngineError::Cancelled => "Download cancelled"@,
                EngineError::NotFound(m) => m@,
                EngineError::InvalidRequest(m) => m@,
                EngineError::Persist(m) => m@,
            },
    {
        match self {
            EngineError::ProbeFailed(m) => m.clone(),
            EngineError::Transport(m) => m.clone(),
            EngineError::HttpStatus(m) => m.clone(),
            EngineError::Io(m) => m.clone(),
            EngineError::Cancelled => String::from_str("Download cancelled"),
            EngineError::NotFound(m) => m.clone(),
            EngineError::InvalidRequest(m) => m.clone(),
            EngineError::Persist(m) => m.clone(),
        }
    }
}

} // verus!

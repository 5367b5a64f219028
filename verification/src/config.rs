//! Errors of the `wiki.yaml` configuration.

use vstd::prelude::*;

verus! {

/// Why the configuration could not be loaded.
pub enum ConfigError {
    /// The file could not be read.
    Io(String),
    /// The file is not valid configuration.
    Parse(String),
}

impl ConfigError {
    /// The error's message.
    pub fn message(&self) -> (r: String)
        ensures
            r@ == match self {
                ConfigError::Io(m) => m@,
                ConfigError::Parse(m) => m@,
            },
    {
        match self {
            ConfigError::Io(m) => m.clone(),
            ConfigError::Parse(m) => m.clone(),
        }
    }
}

} // verus!

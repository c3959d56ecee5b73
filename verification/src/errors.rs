//! Error kinds surfaced by the engine: configuration errors rejected before a
//! node becomes usable, and value errors raised on malformed arrivals.

use vstd::prelude::*;

verus! {

/// A hard error surfaced to the caller. Abandonment of a partial aggregate and
/// cache eviction are deliberately *not* errors: they are silent, expected
/// degradations under timing or resource pressure.
#[derive(Debug)]
pub enum EngineError {
    /// The node's configuration is unusable (for example, fewer than one port,
    /// or a required per-port field name missing).
    InvalidConfig(String),
    /// An arriving value is malformed: a frame index out of bounds, a frame
    /// total that contradicts an in-progress collection, or an unrecognized
    /// input port.
    InvalidValue(String),
}

impl EngineError {
    /// True when this error was raised at configuration time.
    pub open spec fn is_config(self) -> bool {
        self matches EngineError::InvalidConfig(_)
    }

    /// True when this error concerns an arriving value.
    pub open spec fn is_value(self) -> bool {
        self matches EngineError::InvalidValue(_)
    }

    /// A short description of the error, for logs.
    pub fn describe(&self) -> String {
        match self {
            EngineError::InvalidConfig(m) => m.clone(),
            EngineError::InvalidValue(m) => m.clone(),
        }
    }
}

} // verus!

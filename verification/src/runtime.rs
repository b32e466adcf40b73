use vstd::prelude::*;

verus! {

/// Configuration for a runtime; `build` (provided by the application layer,
/// which owns the threads) turns it into a running runtime.
#[derive(Debug, PartialEq, Eq)]
pub struct RuntimeBuilder {}

impl RuntimeBuilder {
    /// A builder with the default configuration.
    pub fn new() -> (builder: Self)
        ensures
            builder == (RuntimeBuilder {}),
    {
        RuntimeBuilder {}
    }
}

} // verus!

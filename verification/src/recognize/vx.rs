use vstd::prelude::*;
use crate::error::RecError;

verus! {

/// Reads single-line (V/X) marks; no model is loaded.
pub struct RecVxModule;

impl RecVxModule {
    /// Creates the module; the model path is not used.
    pub fn new_paper(_model_path: &str) -> (r: Result<Self, RecError>)
        ensures
            r is Ok,
    {
        Ok(RecVxModule)
    }
}

} // verus!

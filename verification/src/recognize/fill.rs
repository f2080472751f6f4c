use vstd::prelude::*;

verus! {

/// Reads which options of the choice questions are filled.
pub struct RecFillModule;

impl RecFillModule {
    pub fn new() -> (r: Self) {
        RecFillModule
    }
}

} // verus!

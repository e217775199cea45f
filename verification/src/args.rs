//! The interpreter's options, as plain values.

use vstd::prelude::*;

verus! {

/// Options of one interpreter run: the image file, an explicit codel size,
/// the fallback colour policies, an iteration cap, and the trace switch.
pub struct Args {
    pub image_file: String,
    pub codel_size: Option<usize>,
    pub fall_back_to_white: bool,
    pub fall_back_to_black: bool,
    pub max_iter: Option<usize>,
    pub verbose: bool,
}

impl Args {
    /// The two fallback colours are mutually exclusive.
    pub fn validate(&self) -> (r: Result<(), String>)
        ensures
            (r is Ok) <==> !(self.fall_back_to_white && self.fall_back_to_black),
            r matches Err(m) ==> m@
                == "at most one of `fall_back_to_white` and `fall_back_to_black` can be set"@,
    {
        if self.fall_back_to_white && self.fall_back_to_black {
            return Err(
                "at most one of `fall_back_to_white` and `fall_back_to_black` can be set".to_owned(),
            );
        }
        Ok(())
    }
}

} // verus!

use vstd::prelude::*;

verus! {

/// The application: it wires the sensor stream, the positioning system and
/// the navigator together.
pub struct Sina {}

impl Sina {
    pub fn new() -> (s: Sina) {
        Sina {}
    }
}

} // verus!

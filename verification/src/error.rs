//! What the decoder reports when its input is no valid text.

use vstd::prelude::*;
use vstd::std_specs::cmp::PartialEqSpecImpl;

verus! {

/// The one way decoding fails: a character of the input is no symbol.
#[derive(Debug)]
pub struct InvalidBase32Error {
    /// The first character that is no symbol.
    pub character: char,
    /// Where it stands, counted in characters from the start of the input.
    pub position: usize,
    /// The whole input.
    pub string: String,
}

impl PartialEq for InvalidBase32Error {
    /// Two errors are equal where they name the same character at the same
    /// place of the same input.
    fn eq(&self, other: &Self) -> (r: bool) {
        self.character == other.character && self.position == other.position && self.string
            == other.string
    }
}

impl PartialEqSpecImpl for InvalidBase32Error {
    open spec fn obeys_eq_spec() -> bool {
        true
    }

    open spec fn eq_spec(&self, other: &Self) -> bool {
        self.character == other.character && self.position == other.position && self.string@
            == other.string@
    }
}

} // verus!

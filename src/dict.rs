use vstd::prelude::*;

verus! {

/// A dictionary: pairs of a lower-case word and its definition.
pub struct Dict {
    definitions: Vec<(String, String)>,
}

impl Dict {
    /// The pairs of the dictionary.
    pub closed spec fn pairs(&self) -> Seq<(String, String)> {
        self.definitions@
    }

    /// A dictionary of the given pairs.
    pub fn new(definitions: Vec<(String, String)>) -> (r: Dict)
        ensures
            r.pairs() == definitions@,
    {
        Dict { definitions }
    }

    /// The pairs of the dictionary, handed over.
    pub fn into_definitions(self) -> (r: Vec<(String, String)>)
        ensures
            r@ == self.pairs(),
    {
        self.definitions
    }
}

} // verus!

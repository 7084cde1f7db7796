//! Search results gathered over several indexes.
use vstd::prelude::*;

use std::collections::{HashMap, HashSet};

verus! {

/// Results of searches, keyed by index name and query.
pub struct Search {
    pub results: HashMap<String, HashSet<String>>,
}

impl Search {
    pub fn new() -> (r: Search)
        ensures
            r.results@ == Map::<String, HashSet<String>>::empty(),
    {
        Search { results: HashMap::new() }
    }
}

} // verus!

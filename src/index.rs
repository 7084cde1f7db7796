//! Lookup tables from search terms to replay ids and hashes.
use vstd::prelude::*;

use std::collections::HashMap;

verus! {

pub struct Index {
    pub name: String,
    pub id_entries: HashMap<String, Vec<u32>>,
    pub hash_entries: HashMap<String, Vec<String>>,
}

impl Index {
    pub fn new(name: &str) -> (r: Index)
        ensures
            r.name@ == name@,
            r.id_entries@ == Map::<String, Vec<u32>>::empty(),
            r.hash_entries@ == Map::<String, Vec<String>>::empty(),
    {
        Index { name: String::from_str(name), id_entries: HashMap::new(), hash_entries: HashMap::new() }
    }
}

} // verus!

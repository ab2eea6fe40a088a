//! The collective: clone records by identity and the lineage between them.
use vstd::prelude::*;
use std::collections::HashMap;
use crate::protocol::CloneRecord;

verus! {

pub struct Collective {
    pub records: HashMap<String, CloneRecord>,
    pub lineage: HashMap<String, Vec<String>>,
}

impl Collective {
    /// A collective with its founding records in place (there are none yet).
    pub fn new() -> (r: Self)
        ensures
            r.records@ == Map::<String, CloneRecord>::empty(),
            r.lineage@ == Map::<String, Vec<String>>::empty(),
    {
        let mut c = Collective { records: HashMap::new(), lineage: HashMap::new() };
        c.genesis();
        c
    }

    /// Places the founding records; there are none yet, so nothing changes.
    fn genesis(&mut self)
        ensures
            final(self).records@ == old(self).records@,
            final(self).lineage@ == old(self).lineage@,
    {
    }
}

} // verus!

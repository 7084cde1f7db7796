//! Per-game counters gathered while walking the events of one replay.
use vstd::prelude::*;

verus! {

#[derive(Debug, Clone, Copy, PartialEq, Eq, Structural)]
pub enum ObjectType {
    Building,
    Unit,
}

/// A unit or building that the events created.
#[derive(Debug)]
pub struct GameObject {
    pub object_name_idx: usize,
    pub object_type: ObjectType,
    pub tag_id: u32,
    pub tag_index: u32,
    pub tag_recycle: u32,
    pub player_id: u8,
}

/// Counters for the two players of a game.
pub struct Game {
    pub workers_active: [u8; 2],
    pub minerals_collected: [u16; 2],
    pub minerals_lost: [u16; 2],
    pub gas_collected: [u16; 2],
    pub gas_lost: [u16; 2],
    pub collection_rate: Vec<Vec<(u16, u16)>>,
    pub unspent_resources: Vec<Vec<(u16, u16)>>,
    pub builds: Vec<Vec<(String, u16)>>,
    pub objects: Vec<GameObject>,
}

/// Every list in `v` is empty.
pub open spec fn all_empty<T>(v: Seq<Vec<T>>) -> bool {
    forall|i: int| 0 <= i < v.len() ==> (#[trigger] v[i])@.len() == 0
}

impl Game {
    /// The counters are zero and the per-player lists are empty.
    pub open spec fn is_cleared(&self) -> bool {
        &&& self.workers_active@ == seq![0u8, 0u8]
        &&& self.minerals_collected@ == seq![0u16, 0u16]
        &&& self.minerals_lost@ == seq![0u16, 0u16]
        &&& self.gas_collected@ == seq![0u16, 0u16]
        &&& self.gas_lost@ == seq![0u16, 0u16]
        &&& all_empty(self.collection_rate@)
        &&& all_empty(self.unspent_resources@)
        &&& all_empty(self.builds@)
        &&& self.objects@.len() == 0
    }

    pub fn new() -> (r: Game)
        ensures
            r.is_cleared(),
            r.collection_rate@.len() == 2,
            r.unspent_resources@.len() == 2,
            r.builds@.len() == 2,
    {
        let mut collection_rate: Vec<Vec<(u16, u16)>> = Vec::new();
        collection_rate.push(Vec::new());
        collection_rate.push(Vec::new());
        let mut unspent_resources: Vec<Vec<(u16, u16)>> = Vec::new();
        unspent_resources.push(Vec::new());
        unspent_resources.push(Vec::new());
        let mut builds: Vec<Vec<(String, u16)>> = Vec::new();
        builds.push(Vec::new());
        builds.push(Vec::new());
        let r = Game {
            workers_active: [0, 0],
            minerals_collected: [0, 0],
            minerals_lost: [0, 0],
            gas_collected: [0, 0],
            gas_lost: [0, 0],
            collection_rate,
            unspent_resources,
            builds,
            objects: Vec::new(),
        };
        assert(r.workers_active@ =~= seq![0u8, 0u8]);
        assert(r.minerals_collected@ =~= seq![0u16, 0u16]);
        assert(r.minerals_lost@ =~= seq![0u16, 0u16]);
        assert(r.gas_collected@ =~= seq![0u16, 0u16]);
        assert(r.gas_lost@ =~= seq![0u16, 0u16]);
        r
    }

    /// Clears the counters and lists, keeping one list per player.
    pub fn reset(&mut self)
        ensures
            final(self).is_cleared(),
            final(self).collection_rate@.len() == old(self).collection_rate@.len(),
            final(self).unspent_resources@.len() == old(self).unspent_resources@.len(),
            final(self).builds@.len() == old(self).builds@.len(),
    {
        self.workers_active = [0, 0];
        self.minerals_collected = [0, 0];
        self.minerals_lost = [0, 0];
        self.gas_collected = [0, 0];
        self.gas_lost = [0, 0];
        assert(self.workers_active@ =~= seq![0u8, 0u8]);
        assert(self.minerals_collected@ =~= seq![0u16, 0u16]);
        assert(self.minerals_lost@ =~= seq![0u16, 0u16]);
        assert(self.gas_collected@ =~= seq![0u16, 0u16]);
        assert(self.gas_lost@ =~= seq![0u16, 0u16]);
        clear_all(&mut self.collection_rate);
        clear_all(&mut self.unspent_resources);
        clear_all(&mut self.builds);
        self.objects.clear();
    }
}

/// Empties every list of `v`, keeping their number.
fn clear_all<T>(v: &mut Vec<Vec<T>>)
    ensures
        final(v)@.len() == old(v)@.len(),
        all_empty(final(v)@),
{
    let mut i: usize = 0;
    while i < v.len()
        invariant
            i <= v@.len(),
            v@.len() == old(v)@.len(),
            forall|j: int| 0 <= j < i ==> (#[trigger] v@[j])@.len() == 0,
        decreases v@.len() - i,
    {
        v.set(i, Vec::new());
        i = i + 1;
    }
}

} // verus!

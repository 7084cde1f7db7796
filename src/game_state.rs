//! A snapshot of what each side has built at one game loop.
use vstd::prelude::*;

use std::collections::HashMap;

verus! {

pub type ObjectCount = HashMap<String, u8>;

pub struct GameState {
    pub gameloop: u16,
    pub buildings: ObjectCount,
    pub units: ObjectCount,
}

impl GameState {
    pub fn new() -> (r: GameState)
        ensures
            r.gameloop == 0,
            r.buildings@ == Map::<String, u8>::empty(),
            r.units@ == Map::<String, u8>::empty(),
    {
        GameState { gameloop: 0, buildings: HashMap::new(), units: HashMap::new() }
    }

    pub fn reset(&mut self)
        ensures
            final(self).gameloop == 0,
            final(self).buildings@ == Map::<String, u8>::empty(),
            final(self).units@ == Map::<String, u8>::empty(),
    {
        self.gameloop = 0;
        self.buildings.clear();
        self.units.clear();
    }

    pub fn from(gameloop: u16, buildings: ObjectCount, units: ObjectCount) -> (r: GameState)
        ensures
            r.gameloop == gameloop,
            r.buildings@ == buildings@,
            r.units@ == units@,
    {
        GameState { gameloop, buildings, units }
    }
}

} // verus!

//! Per-replay summaries that the analysis fills from decoded events.
use vstd::prelude::*;

use crate::game::Game;
use crate::game_state::GameState;

verus! {

pub enum SummaryStat {
    ResourceValues(u16, u16),
    Value(u16),
}

pub struct Player {
    pub id: u8,
    pub name: String,
    pub race: String,
}

pub struct TinybirdGame {
    pub content_hash: String,
    pub winner_id: u8,
    pub winner_name: String,
    pub winner_race: String,
    pub winner_build: String,
    pub loser_id: u8,
    pub loser_name: String,
    pub loser_race: String,
    pub loser_build: String,
    pub matchup: String,
    pub players: String,
    pub player_names: String,
    pub builds: String,
    pub map: String,
    pub game_length: u16,
    pub played_at: u64,
    pub event: String,
}

pub struct TinybirdTimelineEntry {
    pub content_hash: String,
    pub gameloop: u16,
    pub win: u8,
    pub player: String,
    pub player_race: String,
    pub player_collection_rate: u16,
    pub player_army_value: u16,
    pub player_workers_active: u16,
    pub opponent: String,
    pub opponent_race: String,
    pub opponent_collection_rate: u16,
    pub opponent_army_value: u16,
    pub opponent_workers_active: u16,
    pub matchup: String,
    pub map: String,
    pub event: String,
    pub game_length: u16,
    pub played_at: u64,
    pub game_version: String,
}

/// What the event walk needs to know about the replay it is in.
pub struct TimelineContext {
    pub content_hash: String,
    pub players: Vec<Player>,
    pub workers_lost: [u16; 2],
    pub workers_killed: [u16; 2],
    pub winner_id: u8,
    pub map: String,
    pub event: String,
    pub matchup: String,
    pub game_length: u16,
    pub played_at: u64,
    pub game_version: String,
}

impl TimelineContext {
    /// Nothing is known yet: empty texts, no players, zero counters.
    pub open spec fn is_blank(&self) -> bool {
        &&& self.content_hash@.len() == 0
        &&& self.players@.len() == 0
        &&& self.workers_lost@ == seq![0u16, 0u16]
        &&& self.workers_killed@ == seq![0u16, 0u16]
        &&& self.winner_id == 0
        &&& self.map@.len() == 0
        &&& self.event@.len() == 0
        &&& self.matchup@.len() == 0
        &&& self.game_length == 0
        &&& self.played_at == 0
        &&& self.game_version@.len() == 0
    }
}

impl Default for TimelineContext {
    fn default() -> (r: TimelineContext)
        ensures
            r.is_blank(),
    {
        let r = TimelineContext {
            content_hash: String::new(),
            players: Vec::new(),
            workers_lost: [0, 0],
            workers_killed: [0, 0],
            winner_id: 0,
            map: String::new(),
            event: String::new(),
            matchup: String::new(),
            game_length: 0,
            played_at: 0,
            game_version: String::new(),
        };
        assert(r.workers_lost@ =~= seq![0u16, 0u16]);
        assert(r.workers_killed@ =~= seq![0u16, 0u16]);
        r
    }
}

pub struct ReplaySummary {
    pub players: Vec<Player>,
    pub builds: [Vec<String>; 2],
    pub build_mappings: [u16; 2],
    pub winner: u8,
    pub game_length: u16,
    pub map: String,
    pub played_at: u64,
    pub tags: String,
    pub tinybird: TinybirdGame,
    pub timeline: Vec<TinybirdTimelineEntry>,
}

/// The state carried from one event of a replay to the next.
pub struct EventParser {
    pub context: TimelineContext,
    pub game: Game,
    pub state: GameState,
    pub timeline: Vec<TinybirdTimelineEntry>,
}

impl EventParser {
    pub fn new() -> (r: EventParser)
        ensures
            r.context.is_blank(),
            r.game.is_cleared(),
            r.state.gameloop == 0,
            r.state.buildings@ == Map::<String, u8>::empty(),
            r.state.units@ == Map::<String, u8>::empty(),
            r.timeline@.len() == 0,
    {
        EventParser {
            context: TimelineContext::default(),
            game: Game::new(),
            state: GameState::new(),
            timeline: Vec::new(),
        }
    }

    /// Starts over for another replay.
    pub fn reset(&mut self, new_context: TimelineContext)
        ensures
            final(self).context == new_context,
            final(self).game.is_cleared(),
            final(self).state.gameloop == 0,
            final(self).state.buildings@ == Map::<String, u8>::empty(),
            final(self).state.units@ == Map::<String, u8>::empty(),
            final(self).timeline@.len() == 0,
    {
        self.context = new_context;
        self.game.reset();
        self.state.reset();
        self.timeline.clear();
    }
}

} // verus!

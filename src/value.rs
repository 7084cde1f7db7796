//! Decoded values and their mathematical model.
use vstd::prelude::*;

verus! {

/// The model of a decoded value: strings as character sequences, lists as
/// sequences.
pub enum Val {
    Name(Seq<char>),
    Value(i64),
    Blob(Seq<char>),
    Array(Seq<Val>),
    DataFragment(u32),
    Pair(i64, i16),
    Gameloop(Seq<char>, i64),
    Bool(bool),
    Struct(Seq<(Seq<char>, Val)>),
    Null,
    Empty,
}

/// Fields of tracker events that the analysis reads.
#[derive(Debug, Clone, Copy, PartialEq, Eq, Structural)]
pub enum EventField {
    Gameloop,
    ControlPlayerId,
    PlayerId,
    UnitTypeName,
    UnitTagIndex,
    UnitTagRecycle,
    Stats,
}

/// Fields of player statistics events.
#[derive(Debug, Clone, Copy, PartialEq, Eq, Structural)]
pub enum StatsField {
    WorkersActiveCount,
    MineralsCollectionRate,
    VespeneCollectionRate,
    MineralsCurrent,
    VespeneCurrent,
    MineralsLostArmy,
    MineralsLostEconomy,
    MineralsLostTechnology,
    VespeneLostArmy,
    VespeneLostEconomy,
    VespeneLostTechnology,
    MineralsUsedInProgressArmy,
    MineralsUsedCurrentArmy,
    VespeneUsedInProgressArmy,
    VespeneUsedCurrentArmy,
}

/// The kinds of events the analysis handles.
#[derive(Debug, Clone, Copy, PartialEq, Eq, Structural)]
pub enum EventType {
    ObjectEvent,
    PlayerStatsEvent,
}

pub type EventEntry = (String, DecoderResult);

/// The result of decoding one schema-typed node.
#[derive(Debug)]
pub enum DecoderResult {
    Name(String),
    Value(i64),
    Blob(String),
    Array(Vec<DecoderResult>),
    DataFragment(u32),
    Pair((i64, i16)),
    Gameloop((String, i64)),
    Bool(bool),
    Struct(Vec<EventEntry>),
    Null,
    Empty,
}

/// The models of a list of values.
pub open spec fn models(v: Seq<DecoderResult>) -> Seq<Val> {
    Seq::new(v.len(), |i: int| v[i].model())
}

/// The models of a list of named values.
pub open spec fn entry_models(v: Seq<EventEntry>) -> Seq<(Seq<char>, Val)> {
    Seq::new(v.len(), |i: int| (v[i].0@, v[i].1.model()))
}

impl DecoderResult {
    pub open spec fn model(self) -> Val
        decreases self,
    {
        match self {
            DecoderResult::Name(s) => Val::Name(s@),
            DecoderResult::Value(v) => Val::Value(v),
            DecoderResult::Blob(s) => Val::Blob(s@),
            DecoderResult::Array(v) => Val::Array(
                Seq::new(v.len() as nat, |i: int| if 0 <= i < v.len() { v[i].model() } else { Val::Null }),
            ),
            DecoderResult::DataFragment(x) => Val::DataFragment(x),
            DecoderResult::Pair(p) => Val::Pair(p.0, p.1),
            DecoderResult::Gameloop(g) => Val::Gameloop(g.0@, g.1),
            DecoderResult::Bool(b) => Val::Bool(b),
            DecoderResult::Struct(v) => Val::Struct(
                Seq::new(v.len() as nat, |i: int| if 0 <= i < v.len() { (v[i].0@, v[i].1.model()) } else { (Seq::empty(), Val::Null) }),
            ),
            DecoderResult::Null => Val::Null,
            DecoderResult::Empty => Val::Empty,
        }
    }
}

pub proof fn lemma_array_model(v: Vec<DecoderResult>)
    ensures
        DecoderResult::Array(v).model() == Val::Array(models(v@)),
{
    let m = DecoderResult::Array(v).model();
    if let Val::Array(x) = m {
        assert(x =~= models(v@));
    }
}

pub proof fn lemma_struct_model(v: Vec<EventEntry>)
    ensures
        DecoderResult::Struct(v).model() == Val::Struct(entry_models(v@)),
{
    let m = DecoderResult::Struct(v).model();
    if let Val::Struct(x) = m {
        assert(x =~= entry_models(v@));
    }
}

} // verus!

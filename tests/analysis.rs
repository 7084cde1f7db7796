use sc2replay::cluster::{BuildCount, Node, RadixTrie};
use sc2replay::replay::join_tags;
use sc2replay::game::Game;
use sc2replay::game_state::GameState;
use sc2replay::index::Index;
use sc2replay::replay::Event;
use sc2replay::search::Search;
use sc2replay::summary::EventParser;
use sc2replay::value::DecoderResult;

use std::collections::HashMap;

#[test]
fn build_count_add() {
    let mut a = BuildCount::new();
    assert_eq!(a, BuildCount { total: 0, wins: 0, losses: 0 });
    a.add(&BuildCount { total: 3, wins: 2, losses: 1 });
    a.add(&BuildCount { total: 1, wins: 0, losses: 1 });
    assert_eq!(a, BuildCount { total: 4, wins: 2, losses: 2 });
}

#[test]
fn match_key_stops_at_last_shared_comma() {
    let node = Node::new("Pylon,Gateway,Assimilator".to_string(), BuildCount::new());
    assert_eq!(node.match_key("Pylon,Gateway,Nexus"), 13);
    assert_eq!(node.match_key("Pylon,Forge"), 5);
    assert_eq!(node.match_key("Pylon"), 0);
    assert_eq!(node.match_key("Nexus,Pylon"), 0);
    assert!(node.children.is_empty());
}

#[test]
fn new_trie_has_empty_root() {
    let t = RadixTrie::new();
    assert_eq!(t.root.label, "ROOT");
    assert!(t.root.children.is_empty());
    assert_eq!(t.root.value.total, 0);
}

#[test]
fn game_reset_clears_everything() {
    let mut g = Game::new();
    g.workers_active = [12, 14];
    g.minerals_collected = [100, 200];
    g.collection_rate[0].push((1, 2));
    g.builds[1].push(("Pylon".to_string(), 20));
    g.reset();
    assert_eq!(g.workers_active, [0, 0]);
    assert_eq!(g.minerals_collected, [0, 0]);
    assert_eq!(g.collection_rate.len(), 2);
    assert!(g.collection_rate.iter().all(|v| v.is_empty()));
    assert!(g.builds.iter().all(|v| v.is_empty()));
    assert!(g.objects.is_empty());
}

#[test]
fn game_state_reset_and_from() {
    let mut buildings = HashMap::new();
    buildings.insert("Nexus".to_string(), 2u8);
    let mut s = GameState::from(672, buildings, HashMap::new());
    assert_eq!(s.gameloop, 672);
    assert_eq!(s.buildings.get("Nexus"), Some(&2));
    s.reset();
    assert_eq!(s.gameloop, 0);
    assert!(s.buildings.is_empty());
    assert!(GameState::new().units.is_empty());
}

#[test]
fn index_and_search_start_empty() {
    let i = Index::new("players");
    assert_eq!(i.name, "players");
    assert!(i.id_entries.is_empty());
    assert!(i.hash_entries.is_empty());
    assert!(Search::new().results.is_empty());
}

#[test]
fn event_parser_reset() {
    let mut p = EventParser::new();
    assert!(p.timeline.is_empty());
    p.game.workers_active = [3, 4];
    p.state.gameloop = 9;
    let mut ctx = sc2replay::summary::TimelineContext::default();
    ctx.map = "Alcyone LE".to_string();
    p.reset(ctx);
    assert_eq!(p.context.map, "Alcyone LE");
    assert_eq!(p.game.workers_active, [0, 0]);
    assert_eq!(p.state.gameloop, 0);
}

#[test]
fn event_keeps_entries() {
    let e = Event::new(vec![("m_gameloop".to_string(), DecoderResult::Value(5))]);
    assert_eq!(e.entries.len(), 1);
    assert_eq!(e.entries[0].0, "m_gameloop");
}

fn one_win() -> BuildCount {
    BuildCount { total: 1, wins: 1, losses: 0 }
}

#[test]
fn trie_insert_extends_and_splits() {
    let mut t = RadixTrie::new();
    t.insert("Pylon,Gateway", one_win());
    t.insert("Pylon,Gateway,Core", one_win());
    t.insert("Pylon,Forge", one_win());
    assert_eq!(t.root.value.total, 3);
    assert_eq!(t.root.children.len(), 1);
    let pylon = &t.root.children[0];
    assert_eq!(pylon.label, "Pylon");
    assert_eq!(pylon.value.total, 3);
    assert_eq!(pylon.children.len(), 2);
    assert_eq!(pylon.children[0].label, "Gateway");
    assert_eq!(pylon.children[0].value.total, 2);
    assert_eq!(pylon.children[0].children[0].label, "Core");
    assert_eq!(pylon.children[1].label, "Forge");
    assert_eq!(pylon.children[1].value, one_win());
}

#[test]
fn trie_same_build_twice_counts_twice() {
    let mut t = RadixTrie::from("Hatchery,Pool", one_win());
    t.insert("Hatchery,Pool", BuildCount { total: 1, wins: 0, losses: 1 });
    assert_eq!(t.root.children.len(), 1);
    assert_eq!(t.root.children[0].value, BuildCount { total: 2, wins: 1, losses: 1 });
    assert_eq!(t.root.value, BuildCount { total: 2, wins: 1, losses: 1 });
}

#[test]
fn trie_prefix_build_splits_label() {
    let mut t = RadixTrie::from("Hatchery,Pool,Extractor", one_win());
    t.insert("Hatchery,Pool", one_win());
    let h = &t.root.children[0];
    assert_eq!(h.label, "Hatchery,Pool");
    assert_eq!(h.children[0].label, "Extractor");
    assert_eq!(h.children[0].value, one_win());
    assert_eq!(h.value.total, 2);
}

#[test]
fn split_at_moves_children_down() {
    let mut n = Node::new("A,B".to_string(), one_win());
    n.children.push(Node::new("C".to_string(), one_win()));
    n.split_at(1);
    assert_eq!(n.label, "A");
    assert_eq!(n.children.len(), 1);
    assert_eq!(n.children[0].label, "B");
    assert_eq!(n.children[0].children[0].label, "C");
}

#[test]
fn trie_from_holds_one_build() {
    let c = one_win();
    let t = RadixTrie::from("a,b", c);
    assert_eq!(t.root.label, "ROOT");
    assert_eq!(t.root.value, c);
    assert_eq!(t.root.children.len(), 1);
    assert_eq!(t.root.children[0].label, "a,b");
    assert_eq!(t.root.children[0].value, c);
    assert!(t.root.children[0].children.is_empty());
}

#[test]
fn trie_insert_splits_at_shared_comma() {
    let c = one_win();
    let mut t = RadixTrie::from("a,b", c);
    t.insert("a,c", c);
    assert_eq!(t.root.value, BuildCount { total: 2, wins: 2, losses: 0 });
    assert_eq!(t.root.children.len(), 1);
    let a = &t.root.children[0];
    assert_eq!(a.label, "a");
    assert_eq!(a.value, BuildCount { total: 2, wins: 2, losses: 0 });
    assert_eq!(a.children.len(), 2);
    assert_eq!(a.children[0].label, "b");
    assert_eq!(a.children[0].value, c);
    assert_eq!(a.children[1].label, "c");
    assert_eq!(a.children[1].value, c);
}

#[test]
fn tags_join_with_commas() {
    assert_eq!(join_tags(&vec![]), "");
    assert_eq!(join_tags(&vec!["WCS".to_string()]), "WCS");
    assert_eq!(join_tags(&vec!["WCS".to_string(), "TSL".to_string(), "AlphaX".to_string()]), "WCS,TSL,AlphaX");
}

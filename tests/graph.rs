use socialgraph::graph::UserRelationshipGraphMap;
use socialgraph::inference::{
    Interaction, InteractionType, RelationshipChange, RelationshipChangeReason, RELATIONSHIP_DECAY,
    RELATIONSHIP_DECAY_GLOBAL, STRENGTH_SCALE,
};
use socialgraph::persist::{edge_key_text, entries_for_save, graph_data_file_name, graph_from_entries, parse_edge_key};
use socialgraph::social::SocialGraph;

const A: u64 = 11;
const B: u64 = 12;
const C: u64 = 13;

fn graph_with(edges: &[(u64, u64, u64)]) -> UserRelationshipGraphMap {
    let mut g = UserRelationshipGraphMap::new();
    for &(s, t, w) in edges {
        g.set_strength(s, t, w);
    }
    g
}

#[test]
fn decay_takes_amount_each_time() {
    let mut g = graph_with(&[(A, B, 1000)]);
    for n in 1..=4u64 {
        g.decay(200);
        assert_eq!(g.get(A, B), Some(1000 - 200 * n));
    }
    g.decay(200);
    assert_eq!(g.get(A, B), None);
    g.decay(200);
    assert_eq!(g.get(A, B), None);
    assert!(g.is_empty());
}

#[test]
fn decay_removes_only_exhausted_edges() {
    let mut g = graph_with(&[(A, B, 300), (B, A, 150), (A, C, 200)]);
    g.decay(200);
    assert_eq!(g.get(A, B), Some(100));
    assert_eq!(g.get(B, A), None);
    assert_eq!(g.get(A, C), None);
    assert_eq!(g.len(), 1);
}

#[test]
fn add_strength_creates_and_accumulates() {
    let mut g = UserRelationshipGraphMap::new();
    g.add_strength(A, B, 5000);
    g.add_strength(A, B, 2500);
    g.add_strength(B, A, 1);
    assert_eq!(g.get(A, B), Some(7500));
    assert_eq!(g.get(B, A), Some(1));
    g.add_strength(A, C, u64::MAX);
    g.add_strength(A, C, 10);
    assert_eq!(g.get(A, C), Some(u64::MAX));
}

#[test]
fn merge_of_two_channels_sums() {
    let mut social = SocialGraph::new();
    assert!(social.load_channel_graph(1, 100, graph_with(&[(A, B, 3 * STRENGTH_SCALE)])));
    assert!(social.load_channel_graph(1, 200, graph_with(&[(A, B, 2 * STRENGTH_SCALE), (B, C, 7)])));
    assert!(!social.load_channel_graph(1, 200, UserRelationshipGraphMap::new()));
    let merged = social.build_guild_graph(1).unwrap();
    assert_eq!(merged.get(A, B), Some(5 * STRENGTH_SCALE));
    assert_eq!(merged.get(B, C), Some(7));
    assert_eq!(merged.len(), 2);
    assert!(social.build_guild_graph(2).is_none());

    let mut other = SocialGraph::new();
    other.load_channel_graph(1, 200, graph_with(&[(A, B, 2 * STRENGTH_SCALE), (B, C, 7)]));
    other.load_channel_graph(1, 100, graph_with(&[(A, B, 3 * STRENGTH_SCALE)]));
    let merged_other = other.build_guild_graph(1).unwrap();
    assert_eq!(merged_other.get(A, B), Some(5 * STRENGTH_SCALE));
    assert_eq!(merged_other.get(B, C), Some(7));
}

fn message(guild: u64, channel: u64, source: u64, target: Option<u64>, bot: bool) -> Interaction {
    Interaction {
        what: InteractionType::Message,
        when: 0,
        guild,
        channel,
        source,
        source_is_bot: bot,
        target,
        other_targets: vec![],
    }
}

#[test]
fn apply_decays_and_strengthens() {
    let mut social = SocialGraph::new();
    social.load_channel_graph(1, 100, graph_with(&[(A, C, 10000)]));
    social.load_channel_graph(1, 200, graph_with(&[(B, C, 10000)]));
    let i = message(1, 100, A, Some(B), false);
    let changes = vec![RelationshipChange { source: A, target: B, reason: RelationshipChangeReason::MessageDirectMention }];
    social.apply(&i, &changes);
    let here = social.get_channel_graph(1, 100).unwrap();
    assert_eq!(here.get(A, C), Some(10000 - RELATIONSHIP_DECAY_GLOBAL - RELATIONSHIP_DECAY));
    assert_eq!(here.get(A, B), Some(20000));
    let sibling = social.get_channel_graph(1, 200).unwrap();
    assert_eq!(sibling.get(B, C), Some(10000 - RELATIONSHIP_DECAY_GLOBAL));

    let bot = message(1, 100, A, None, true);
    social.apply(&bot, &vec![]);
    let sibling = social.get_channel_graph(1, 200).unwrap();
    assert_eq!(sibling.get(B, C), Some(10000 - RELATIONSHIP_DECAY_GLOBAL));
}

#[test]
fn record_creates_channel_and_infers() {
    let mut social = SocialGraph::new();
    assert!(!social.contains_channel(5, 6));
    let changes = social.record(&message(5, 6, A, Some(B), false));
    assert_eq!(changes.len(), 1);
    assert!(social.contains_channel(5, 6));
    assert_eq!(social.get_channel_graph(5, 6).unwrap().get(A, B), Some(20000));
}

#[test]
fn removal_and_guild_listing() {
    let mut social = SocialGraph::new();
    social.load_channel_graph(1, 10, graph_with(&[(A, B, 5)]));
    social.load_channel_graph(2, 20, graph_with(&[(A, B, 5), (B, A, 5), (A, C, 5)]));
    social.load_channel_graph(3, 30, graph_with(&[(A, B, 5), (B, A, 5)]));
    assert_eq!(social.get_all_guild_ids(), vec![(2, 3), (3, 2), (1, 1)]);
    social.record(&message(2, 20, A, None, false));
    social.remove_channel(2, 20);
    assert!(!social.contains_channel(2, 20));
    assert!(social.build_guild_graph(2).is_none());
    social.remove_guild(3);
    assert!(social.build_guild_graph(3).is_none());
    assert_eq!(social.get_all_guild_ids(), vec![(1, 1), (2, 0)]);
}

#[test]
fn save_then_load_round_trips() {
    let g = graph_with(&[(A, B, 12345), (B, C, 1)]);
    let entries = entries_for_save(&g).unwrap();
    assert_eq!(entries.len(), 2);
    let loaded = graph_from_entries(&entries).unwrap();
    assert_eq!(loaded.get(A, B), Some(12345));
    assert_eq!(loaded.get(B, C), Some(1));
    assert_eq!(loaded.len(), 2);
}

#[test]
fn empty_graph_is_not_saved() {
    assert!(entries_for_save(&UserRelationshipGraphMap::new()).is_none());
}

#[test]
fn edge_keys() {
    assert_eq!(edge_key_text(123, 45), "123:45");
    assert_eq!(parse_edge_key("123:45"), Some((123, 45)));
    assert_eq!(parse_edge_key("+7:8"), Some((7, 8)));
    assert_eq!(parse_edge_key("1:2:3"), None);
    assert_eq!(parse_edge_key("12"), None);
    assert_eq!(parse_edge_key("0:5"), None);
    assert_eq!(parse_edge_key("a:5"), None);
    assert_eq!(parse_edge_key("5:"), None);
    assert_eq!(graph_data_file_name(10, 20), "10_20.json");
}

#[test]
fn corrupt_entries_are_refused() {
    let entries = vec![("1:2".to_string(), 5u64), ("nope".to_string(), 5u64)];
    assert!(graph_from_entries(&entries).is_none());
    let entries = vec![("1:2".to_string(), 5u64), ("1:2".to_string(), 9u64), ("3:4".to_string(), 0u64)];
    let g = graph_from_entries(&entries).unwrap();
    assert_eq!(g.get(1, 2), Some(9));
    assert_eq!(g.get(3, 4), None);
}

#[test]
fn saved_entries_are_keyed_by_pair() {
    let g = graph_with(&[(A, B, 7), (C, A, 9)]);
    let mut entries = entries_for_save(&g).unwrap();
    entries.sort();
    assert_eq!(entries, vec![("11:12".to_string(), 7), ("13:11".to_string(), 9)]);
}

#[test]
fn guild_without_channels_has_no_graph() {
    let mut social = SocialGraph::new();
    social.record(&message(4, 40, A, Some(B), false));
    assert!(social.build_guild_graph(4).is_some());
    social.remove_channel(4, 40);
    assert!(social.build_guild_graph(4).is_none());
}

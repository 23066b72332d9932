use socialgraph::entities::{CachedMessage, ChannelKind, MessageKind};
use socialgraph::inference::{
    is_tracked_message, is_tracked_reaction, loads_graph_on_creation, IncomingMessage, IncomingReaction, InferenceState, Interaction, InteractionError,
    InteractionType, RelationshipChange, RelationshipChangeReason,
};

const A: u64 = 1001;
const B: u64 = 1002;
const C: u64 = 1003;

fn message(source: u64, when_secs: u64, target: Option<u64>, others: Vec<u64>) -> Interaction {
    Interaction {
        what: InteractionType::Message,
        when: when_secs * 1000,
        guild: 1,
        channel: 2,
        source,
        source_is_bot: false,
        target,
        other_targets: others,
    }
}

#[test]
fn inference_scenario_adjacency() {
    // C speaks at -700 s, A mentions B at 0 s, B answers at 90 s.
    let mut state = InferenceState::new();
    let mut changes = Vec::new();
    state.infer(&mut changes, &message(C, 0, None, vec![]));
    assert!(changes.is_empty());
    let mut m1 = Vec::new();
    state.infer(&mut m1, &message(A, 700, Some(B), vec![]));
    assert_eq!(
        m1,
        vec![RelationshipChange { source: A, target: B, reason: RelationshipChangeReason::MessageDirectMention }]
    );
    let mut m2 = Vec::new();
    state.infer(&mut m2, &message(B, 790, None, vec![]));
    assert_eq!(
        m2,
        vec![RelationshipChange { source: B, target: A, reason: RelationshipChangeReason::MessageAdjacency }]
    );
}

#[test]
fn adjacency_needs_long_gap() {
    let mut state = InferenceState::new();
    let mut changes = Vec::new();
    state.infer(&mut changes, &message(C, 0, None, vec![]));
    state.infer(&mut changes, &message(A, 600, None, vec![]));
    state.infer(&mut changes, &message(B, 650, None, vec![]));
    assert!(changes.is_empty());
}

#[test]
fn binary_sequence_scenario() {
    let mut state = InferenceState::new();
    let speakers = [A, B, A, B, A];
    let mut all = Vec::new();
    for (k, s) in speakers.iter().enumerate() {
        let mut changes = Vec::new();
        state.infer(&mut changes, &message(*s, k as u64 * 10, None, vec![]));
        all.push(changes);
    }
    for changes in &all[..4] {
        assert!(changes.iter().all(|c| c.reason != RelationshipChangeReason::MessageBinarySequence));
    }
    let binary: Vec<_> = all[4]
        .iter()
        .filter(|c| c.reason == RelationshipChangeReason::MessageBinarySequence)
        .collect();
    assert_eq!(binary.len(), 1);
    assert_eq!(binary[0].source, A);
    assert_eq!(binary[0].target, B);
}

#[test]
fn three_speakers_no_binary_sequence() {
    let mut state = InferenceState::new();
    let mut changes = Vec::new();
    for (k, s) in [A, B, C, A, B].iter().enumerate() {
        state.infer(&mut changes, &message(*s, k as u64, None, vec![]));
    }
    assert!(changes.iter().all(|c| c.reason != RelationshipChangeReason::MessageBinarySequence));
}

#[test]
fn reactions_and_indirect_mentions() {
    let mut state = InferenceState::new();
    let mut changes = Vec::new();
    let reaction = Interaction {
        what: InteractionType::Reaction,
        when: 0,
        guild: 1,
        channel: 2,
        source: A,
        source_is_bot: false,
        target: Some(B),
        other_targets: vec![C],
    };
    state.infer(&mut changes, &reaction);
    assert_eq!(changes, vec![RelationshipChange { source: A, target: B, reason: RelationshipChangeReason::Reaction }]);
    let mut changes = Vec::new();
    state.infer(&mut changes, &message(A, 1, None, vec![B, C]));
    assert_eq!(
        changes,
        vec![
            RelationshipChange { source: A, target: B, reason: RelationshipChangeReason::MessageIndirectMention },
            RelationshipChange { source: A, target: C, reason: RelationshipChangeReason::MessageIndirectMention },
        ]
    );
}

#[test]
fn reason_strengths_and_codes() {
    let reasons = [
        RelationshipChangeReason::Reaction,
        RelationshipChangeReason::MessageDirectMention,
        RelationshipChangeReason::MessageIndirectMention,
        RelationshipChangeReason::MessageAdjacency,
        RelationshipChangeReason::MessageBinarySequence,
    ];
    let strengths: Vec<u64> = reasons.iter().map(|r| r.get_change_strength()).collect();
    assert_eq!(strengths, vec![1000, 20000, 10000, 5000, 5000]);
    let codes: Vec<u8> = reasons.iter().map(|r| r.code()).collect();
    assert_eq!(codes, vec![1, 2, 3, 4, 5]);
}

#[test]
fn interaction_from_message() {
    let incoming = IncomingMessage {
        guild_id: Some(1),
        channel_id: 2,
        author_id: A,
        author_is_bot: false,
        content: "<@!1002> look at this, <@1003>".to_string(),
        mentions: vec![B, C, B],
    };
    let i = Interaction::new_from_message(&incoming, None, 42).unwrap();
    assert_eq!(i.target, Some(B));
    assert_eq!(i.other_targets, vec![C]);
    assert_eq!(i.when, 42);
    let replied = CachedMessage { author_id: C, kind: MessageKind::Regular };
    let plain = IncomingMessage { content: "sure".to_string(), mentions: vec![B], ..incoming };
    let i = Interaction::new_from_message(&plain, Some(&replied), 43).unwrap();
    assert_eq!(i.target, Some(C));
    assert_eq!(i.other_targets, vec![B]);
    let dm = IncomingMessage { guild_id: None, ..plain };
    assert_eq!(Interaction::new_from_message(&dm, None, 0).unwrap_err(), InteractionError::NotInGuild);
}

#[test]
fn interaction_from_reaction() {
    let target = CachedMessage { author_id: B, kind: MessageKind::Reply };
    let r = IncomingReaction { guild_id: Some(1), channel_id: 2, user_id: A, member_is_bot: Some(true) };
    let i = Interaction::new_from_reaction(&r, &target, 5).unwrap();
    assert_eq!(i.what, InteractionType::Reaction);
    assert_eq!(i.target, Some(B));
    assert!(i.source_is_bot);
    let no_member = IncomingReaction { member_is_bot: None, ..r };
    assert_eq!(Interaction::new_from_reaction(&no_member, &target, 5).unwrap_err(), InteractionError::MissingMember);
    let no_guild = IncomingReaction { guild_id: None, channel_id: 2, user_id: A, member_is_bot: Some(false) };
    assert_eq!(Interaction::new_from_reaction(&no_guild, &target, 5).unwrap_err(), InteractionError::NotInGuild);
}

#[test]
fn tracked_messages() {
    assert!(is_tracked_message(MessageKind::Regular, A, B));
    assert!(is_tracked_message(MessageKind::Reply, A, B));
    assert!(!is_tracked_message(MessageKind::Other, A, B));
    assert!(!is_tracked_message(MessageKind::Regular, B, B));
}

#[test]
fn change_description() {
    let c = RelationshipChange { source: 12, target: 345, reason: RelationshipChangeReason::MessageAdjacency };
    assert_eq!(c.describe(), "12 --> 345 [MessageAdjacency]");
}

#[test]
fn tracked_reactions_and_channels() {
    assert!(is_tracked_reaction(A, B));
    assert!(!is_tracked_reaction(B, B));
    assert!(loads_graph_on_creation(ChannelKind::GuildText));
    assert!(!loads_graph_on_creation(ChannelKind::Thread));
    assert!(!loads_graph_on_creation(ChannelKind::Other));
}

use socialgraph::cache::{role_in, Cache, CacheEvent, MessageEvent, NonceCollision, SeenUser};
use socialgraph::entities::{CachedChannel, CachedGuild, CachedMember, CachedMessage, CachedRole, CachedUser, ChannelKind, MessageKind};
use socialgraph::resolver::{
    bulk_timeout_secs, chunk_user_ids, plan_member_requests, MemberChunkRequest, MemberRequestProgress, NONCE_LENGTH,
};

fn user(id: u64, name: &str) -> CachedUser {
    CachedUser { id, name: name.to_string(), discriminator: 1, avatar: None, bot: false }
}

fn guild(id: u64) -> CachedGuild {
    CachedGuild { id, name: format!("guild {}", id), icon: None, roles: vec![], owner_id: 1 }
}

fn member(nick: &str) -> CachedMember {
    CachedMember { nick: Some(nick.to_string()), avatar: None, roles: vec![3] }
}

#[test]
fn put_user_then_get_user() {
    let mut cache = Cache::new();
    let u = user(42, "ada");
    cache.put_user(u.clone());
    assert_eq!(cache.get_user(42), Some(u));
    assert_eq!(cache.get_user(43), None);
}

#[test]
fn guild_partition_and_members() {
    let mut cache = Cache::new();
    cache.put_member(1, 5, member("x"));
    assert_eq!(cache.get_member(1, 5), None);
    let role = CachedRole { id: 3, name: "mod".to_string(), color: 0xFF0000, position: 2, permissions: 8 };
    let channel = CachedChannel { id: 9, name: "general".to_string(), kind: ChannelKind::GuildText };
    cache.update(CacheEvent::GuildCreate { guild: guild(1), roles: vec![role.clone()], channels: vec![channel.clone()] });
    assert_eq!(cache.get_guild_count(), 1);
    assert_eq!(cache.get_guild(1).unwrap().name, "guild 1");
    assert_eq!(cache.get_role(1, 3), Some(role));
    assert_eq!(cache.get_channel(1, 9), Some(channel));
    cache.update(CacheEvent::MemberUpsert { guild_id: 1, user: user(5, "eve"), member: member("evie") });
    assert_eq!(cache.get_member(1, 5), Some(member("evie")));
    assert_eq!(cache.get_user(5).unwrap().name, "eve");
    assert!(cache.member_is_cached(1, 5));
    let (cached, missing) = cache.partition_cached_members(1, &vec![4, 5, 6]);
    assert_eq!(cached, vec![5]);
    assert_eq!(missing, vec![4, 6]);
    cache.update(CacheEvent::MemberRemove { guild_id: 1, user: user(5, "eve2") });
    assert_eq!(cache.get_member(1, 5), None);
    assert_eq!(cache.get_user(5).unwrap().name, "eve2");
    cache.update(CacheEvent::RoleDelete { guild_id: 1, role_id: 3 });
    assert_eq!(cache.get_role(1, 3), None);
    cache.update(CacheEvent::ChannelDelete { guild_id: 1, channel_id: 9 });
    assert_eq!(cache.get_channel(1, 9), None);
    cache.update(CacheEvent::GuildDelete { guild_id: 1 });
    assert!(cache.get_guild(1).is_none());
}

#[test]
fn messages_are_cached_per_guild() {
    let mut cache = Cache::new();
    cache.put_guild(guild(1), vec![]);
    let event = MessageEvent {
        id: 77,
        guild_id: Some(1),
        author: user(5, "eve"),
        member: Some(member("evie")),
        mentions: vec![SeenUser { user: user(6, "bob"), member: None }],
        kind: MessageKind::Reply,
    };
    cache.update(CacheEvent::MessageCreate { message: event });
    assert_eq!(cache.get_message(Some(1), 77), Some(CachedMessage { author_id: 5, kind: MessageKind::Reply }));
    assert_eq!(cache.get_message(None, 77), None);
    assert_eq!(cache.get_user(6).unwrap().name, "bob");
    assert_eq!(cache.get_member(1, 5), Some(member("evie")));
    cache.update(CacheEvent::MessageDelete { guild_id: 1, message_id: 77 });
    assert_eq!(cache.get_message(Some(1), 77), None);
    let stats = cache.get_stats();
    assert_eq!((stats.users, stats.guilds, stats.members, stats.messages), (2, 1, 1, 0));
}

#[test]
fn member_store_evicts_least_recently_used() {
    let mut cache = Cache::new();
    cache.put_guild(guild(1), vec![]);
    for id in 1..=500u64 {
        cache.put_member(1, id, member("m"));
    }
    assert!(cache.get_member(1, 1).is_some());
    cache.put_member(1, 501, member("m"));
    assert!(cache.member_is_cached(1, 1));
    assert!(!cache.member_is_cached(1, 2));
    assert_eq!(cache.get_stats().members, 500);
}

#[test]
fn ready_drops_other_shards() {
    let mut cache = Cache::new();
    let on_zero = 0u64 << 22 | 1;
    let on_one = 1u64 << 22 | 1;
    cache.put_guild(guild(on_zero), vec![]);
    cache.put_guild(guild(on_one), vec![]);
    cache.update(CacheEvent::Ready { shard_number: 1, shard_total: 2 });
    assert!(cache.get_guild(on_zero).is_some());
    assert!(cache.get_guild(on_one).is_none());
}

#[test]
fn chunking_two_hundred_fifty_ids() {
    let ids: Vec<u64> = (1..=250).collect();
    let chunks = chunk_user_ids(&ids);
    let sizes: Vec<usize> = chunks.iter().map(|c| c.len()).collect();
    assert_eq!(sizes, vec![100, 100, 50]);
    assert_eq!(chunks.concat(), ids);
    assert!(chunk_user_ids(&vec![]).is_empty());
    assert_eq!(bulk_timeout_secs(3), 90);
    assert_eq!(bulk_timeout_secs(usize::MAX), u64::MAX);
}

#[test]
fn bulk_request_with_a_lost_chunk() {
    let mut cache = Cache::new();
    cache.put_guild(guild(1), vec![]);
    let ids: Vec<u64> = (1..=250).collect();
    let requests = plan_member_requests(&ids);
    assert_eq!(requests.len(), 3);
    for r in &requests {
        assert_eq!(r.nonce.chars().count(), NONCE_LENGTH);
        assert!(r.nonce.chars().all(|c| c.is_ascii_alphanumeric()));
        assert!(cache.register_member_request(r.nonce.clone(), 9));
    }
    assert!(!cache.register_member_request(requests[0].nonce.clone(), 10));
    let mut progress = MemberRequestProgress::new(requests.len());
    for k in [0usize, 2] {
        let found: Vec<SeenUser> = requests[k].user_ids[..10]
            .iter()
            .map(|&id| SeenUser { user: user(id, "found"), member: Some(member("f")) })
            .collect();
        let not_found: Vec<u64> = requests[k].user_ids[10..].to_vec();
        let response = cache
            .update(CacheEvent::MemberChunk { guild_id: 1, members: found, not_found, nonce: Some(requests[k].nonce.clone()) })
            .unwrap();
        assert_eq!(response.request, 9);
        progress.receive(response.not_found);
    }
    assert!(!progress.is_done());
    assert_eq!(cache.take_member_request(&requests[1].nonce), Some(9));
    assert!(cache
        .update(CacheEvent::MemberChunk { guild_id: 1, members: vec![], not_found: vec![150], nonce: Some(requests[1].nonce.clone()) })
        .is_none());
    let not_found = progress.finish();
    let expected: Vec<u64> = (11..=100).chain(211..=250).collect();
    assert_eq!(not_found, expected);
    assert!(not_found.iter().all(|id| !(101..=200).contains(id)));
    assert!(cache.member_is_cached(1, 1));
    assert!(!cache.member_is_cached(1, 101));
}

#[test]
fn bulk_request_registers_each_chunk() {
    let mut cache = Cache::new();
    let ids: Vec<u64> = (1..=150).collect();
    let requests = cache.bulk_request_members(&ids, 4).unwrap();
    assert_eq!(requests.len(), 2);
    assert_eq!(requests[0].user_ids, (1..=100).collect::<Vec<u64>>());
    assert_eq!(requests[1].user_ids, (101..=150).collect::<Vec<u64>>());
    assert_ne!(requests[0].nonce, requests[1].nonce);
    assert_eq!(cache.take_member_request(&requests[1].nonce), Some(4));
    assert_eq!(cache.take_member_request(&requests[1].nonce), None);
    assert_eq!(cache.take_member_request(&requests[0].nonce), Some(4));
}

#[test]
fn user_store_holds_five_thousand() {
    let mut cache = Cache::new();
    for id in 1..=5001u64 {
        cache.put_user(user(id, "u"));
    }
    assert_eq!(cache.get_stats().users, 5000);
    assert_eq!(cache.get_user(1), None);
    assert!(cache.get_user(2).is_some());
}

#[test]
fn only_text_channels_are_kept() {
    let mut cache = Cache::new();
    let text = CachedChannel { id: 1, name: "chat".to_string(), kind: ChannelKind::GuildText };
    let thread = CachedChannel { id: 2, name: "topic".to_string(), kind: ChannelKind::Thread };
    let voice = CachedChannel { id: 3, name: "voice".to_string(), kind: ChannelKind::Other };
    cache.update(CacheEvent::GuildCreate { guild: guild(1), roles: vec![], channels: vec![text.clone(), voice.clone()] });
    assert_eq!(cache.get_channel(1, 1), Some(text));
    assert_eq!(cache.get_channel(1, 3), None);
    cache.update(CacheEvent::ChannelUpsert { guild_id: Some(1), channel: voice });
    assert_eq!(cache.get_channel(1, 3), None);
    cache.update(CacheEvent::ChannelUpsert { guild_id: Some(1), channel: thread.clone() });
    assert_eq!(cache.get_channel(1, 2), Some(thread));
    assert_eq!(cache.get_stats().channels, 2);
}

#[test]
fn empty_bulk_request_needs_no_chunk() {
    let mut cache = Cache::new();
    let requests = cache.bulk_request_members(&vec![], 1).unwrap();
    assert!(requests.is_empty());
}

#[test]
fn colliding_nonces_register_nothing() {
    let mut cache = Cache::new();
    let chunk = |nonce: &str| MemberChunkRequest { nonce: nonce.to_string(), user_ids: vec![1] };
    assert_eq!(cache.register_member_requests(&vec![chunk("a"), chunk("b"), chunk("a")], 1), Err(NonceCollision));
    assert_eq!(cache.take_member_request("a"), None);
    assert_eq!(cache.take_member_request("b"), None);
    assert_eq!(cache.register_member_requests(&vec![chunk("a"), chunk("b")], 2), Ok(()));
    assert_eq!(cache.register_member_requests(&vec![chunk("c"), chunk("b")], 3), Err(NonceCollision));
    assert_eq!(cache.take_member_request("c"), None);
    assert_eq!(cache.take_member_request("b"), Some(2));
}

#[test]
fn role_lookup_in_a_fetched_list() {
    let role = |id: u64, name: &str| CachedRole { id, name: name.to_string(), color: 0, position: 0, permissions: 0 };
    let roles = vec![role(1, "a"), role(2, "b"), role(2, "c")];
    assert_eq!(role_in(&roles, 2), Some(role(2, "b")));
    assert_eq!(role_in(&roles, 3), None);
}

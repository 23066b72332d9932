//! The entity cache: users in a bounded store of their own, and per guild
//! its metadata, roles and channels, with bounded stores of members and of
//! recent messages. Writes come from the event stream and never fail; reads
//! that miss leave the fetch to the caller, who then stores what it got.

use lru::LruCache;
use vstd::prelude::*;

use crate::assoc::{
    assoc_map, assoc_unique, lemma_assoc_contains, lemma_assoc_len, lemma_assoc_push,
    lemma_assoc_remove, lemma_assoc_update, lemma_assoc_value,
};
use crate::entities::{
    is_text_capable, text_capable, CachedChannel, CachedGuild, CachedMember, CachedMessage, CachedRole, CachedUser,
    MessageKind,
};
use crate::ids::{ChannelId, GuildId, MessageId, RoleId, UserId};
use crate::resolver::{
    chunk_at, chunk_count, nonce_shaped, nonces_distinct, plan_member_requests, MemberChunkRequest,
};
use crate::text::text_is;
use crate::lru_store::{
    get_member_lru, get_message_lru, get_user_lru, lemma_lru_bounded, lru_index, lru_pop, lru_put, lru_touch,
    member_capacity, message_capacity, user_capacity,
    lru_value, member_entries, member_lru_contains, member_lru_len, message_entries,
    message_lru_len, new_member_lru, new_message_lru, new_user_lru, pop_member_lru,
    pop_message_lru, put_member_lru, put_message_lru, put_user_lru, user_entries, user_lru_len,
};

verus! {

pub const USERS_LRU_CACHE_LIMIT: usize = 5000;

pub const MEMBERS_LRU_CACHE_LIMIT: usize = 500;

pub const MESSAGES_LRU_CACHE_LIMIT: usize = 100;

/// What the cache holds of one guild.
pub struct GuildView {
    pub guild: CachedGuild,
    pub roles: Map<RoleId, CachedRole>,
    pub members: Seq<(UserId, CachedMember)>,
    pub channels: Map<ChannelId, CachedChannel>,
    pub messages: Seq<(MessageId, CachedMessage)>,
}

pub open spec fn roles_view(rs: Seq<CachedRole>) -> Seq<(RoleId, CachedRole)> {
    rs.map_values(|r: CachedRole| (r.id, r))
}

/// The text-capable channels of `cs`, in order.
pub open spec fn text_channels(cs: Seq<CachedChannel>) -> Seq<CachedChannel> {
    cs.filter(|c: CachedChannel| text_capable(c.kind))
}

pub open spec fn channels_view(cs: Seq<CachedChannel>) -> Seq<(ChannelId, CachedChannel)> {
    cs.map_values(|c: CachedChannel| (c.id, c))
}

struct GuildCache {
    guild: CachedGuild,
    roles: Vec<CachedRole>,
    members: LruCache<UserId, CachedMember>,
    channels: Vec<CachedChannel>,
    messages: LruCache<MessageId, CachedMessage>,
}

impl GuildCache {
    closed spec fn view_of(&self) -> GuildView {
        GuildView {
            guild: self.guild,
            roles: assoc_map(roles_view(self.roles@)),
            members: member_entries(self.members),
            channels: assoc_map(channels_view(self.channels@)),
            messages: message_entries(self.messages),
        }
    }

    closed spec fn wf(&self) -> bool {
        &&& assoc_unique(roles_view(self.roles@))
        &&& assoc_unique(channels_view(self.channels@))
        &&& member_capacity(self.members) == MEMBERS_LRU_CACHE_LIMIT
        &&& member_entries(self.members).len() <= MEMBERS_LRU_CACHE_LIMIT
        &&& message_capacity(self.messages) == MESSAGES_LRU_CACHE_LIMIT
        &&& message_entries(self.messages).len() <= MESSAGES_LRU_CACHE_LIMIT
    }

    fn placeholder() -> (r: GuildCache) {
        GuildCache {
            guild: CachedGuild { id: 0, name: String::new(), icon: None, roles: Vec::new(), owner_id: 0 },
            roles: Vec::new(),
            members: new_member_lru(1),
            channels: Vec::new(),
            messages: new_message_lru(1),
        }
    }
}

/// Sets the role of its id in `roles`.
fn set_role(roles: &mut Vec<CachedRole>, role: CachedRole)
    requires
        assoc_unique(roles_view(old(roles)@)),
    ensures
        assoc_unique(roles_view(final(roles)@)),
        assoc_map(roles_view(final(roles)@)) == assoc_map(roles_view(old(roles)@)).insert(role.id, role),
{
    let ghost v0 = roles_view(roles@);
    let n = roles.len();
    let mut i: usize = 0;
    while i < n
        invariant
            n == roles@.len(),
            roles@ == old(roles)@,
            v0 == roles_view(roles@),
            assoc_unique(v0),
            i <= n,
            forall|m: int| 0 <= m < i ==> (#[trigger] roles@[m]).id != role.id,
        decreases n - i,
    {
        if roles[i].id == role.id {
            let ghost id = role.id;
            roles.set(i, role);
            proof {
                lemma_assoc_update(v0, i as int, role);
                assert(roles_view(roles@) =~= v0.update(i as int, (id, role)));
            }
            return;
        }
        i = i + 1;
    }
    proof {
        lemma_assoc_contains(v0, role.id);
        assert forall|m: int| 0 <= m < n implies (#[trigger] v0[m]).0 != role.id by {
            assert(v0[m].0 == roles@[m].id);
        }
        lemma_assoc_push(v0, role.id, role);
    }
    let ghost r = role;
    roles.push(role);
    assert(roles_view(roles@) =~= v0.push((r.id, r)));
}

/// Removes the role `id` from `roles`.
fn unset_role(roles: &mut Vec<CachedRole>, id: RoleId)
    requires
        assoc_unique(roles_view(old(roles)@)),
    ensures
        assoc_unique(roles_view(final(roles)@)),
        assoc_map(roles_view(final(roles)@)) == assoc_map(roles_view(old(roles)@)).remove(id),
{
    let ghost v0 = roles_view(roles@);
    let n = roles.len();
    let mut i: usize = 0;
    while i < n
        invariant
            n == roles@.len(),
            roles@ == old(roles)@,
            v0 == roles_view(roles@),
            assoc_unique(v0),
            i <= n,
            forall|m: int| 0 <= m < i ==> (#[trigger] roles@[m]).id != id,
        decreases n - i,
    {
        if roles[i].id == id {
            proof {
                lemma_assoc_remove(v0, i as int);
            }
            let _ = roles.remove(i);
            assert(roles_view(roles@) =~= v0.remove(i as int));
            return;
        }
        i = i + 1;
    }
    proof {
        lemma_assoc_contains(v0, id);
        assert forall|m: int| 0 <= m < n implies (#[trigger] v0[m]).0 != id by {
            assert(v0[m].0 == roles@[m].id);
        }
        assert(assoc_map(v0) =~= assoc_map(v0).remove(id));
    }
}

fn find_role(roles: &Vec<CachedRole>, id: RoleId) -> (r: Option<CachedRole>)
    requires
        assoc_unique(roles_view(roles@)),
    ensures
        r == (if assoc_map(roles_view(roles@)).contains_key(id) {
            Some(assoc_map(roles_view(roles@))[id])
        } else {
            None
        }),
{
    let ghost v0 = roles_view(roles@);
    let n = roles.len();
    let mut i: usize = 0;
    while i < n
        invariant
            n == roles@.len(),
            v0 == roles_view(roles@),
            assoc_unique(v0),
            i <= n,
            forall|m: int| 0 <= m < i ==> (#[trigger] roles@[m]).id != id,
        decreases n - i,
    {
        if roles[i].id == id {
            proof {
                lemma_assoc_value(v0, i as int);
            }
            return Some(roles[i].duplicate());
        }
        i = i + 1;
    }
    proof {
        lemma_assoc_contains(v0, id);
        assert forall|m: int| 0 <= m < n implies (#[trigger] v0[m]).0 != id by {
            assert(v0[m].0 == roles@[m].id);
        }
    }
    None
}

/// The first role of `roles` with id `id`, as a list of roles fetched for a
/// guild is searched.
pub fn role_in(roles: &Vec<CachedRole>, id: RoleId) -> (r: Option<CachedRole>)
    ensures
        match r {
            Some(x) => exists|i: int|
                0 <= i < roles@.len() && (#[trigger] roles@[i]) == x && x.id == id && forall|j: int|
                    0 <= j < i ==> (#[trigger] roles@[j]).id != id,
            None => forall|j: int| 0 <= j < roles@.len() ==> (#[trigger] roles@[j]).id != id,
        },
{
    let n = roles.len();
    let mut i: usize = 0;
    while i < n
        invariant
            n == roles@.len(),
            i <= n,
            forall|j: int| 0 <= j < i ==> (#[trigger] roles@[j]).id != id,
        decreases n - i,
    {
        if roles[i].id == id {
            let x = roles[i].duplicate();
            assert(roles@[i as int] == x);
            return Some(x);
        }
        i = i + 1;
    }
    None
}

/// Sets the channel of its id in `channels`.
fn set_channel(channels: &mut Vec<CachedChannel>, channel: CachedChannel)
    requires
        assoc_unique(channels_view(old(channels)@)),
    ensures
        assoc_unique(channels_view(final(channels)@)),
        assoc_map(channels_view(final(channels)@)) == assoc_map(channels_view(old(channels)@)).insert(
            channel.id,
            channel,
        ),
{
    let ghost v0 = channels_view(channels@);
    let n = channels.len();
    let mut i: usize = 0;
    while i < n
        invariant
            n == channels@.len(),
            channels@ == old(channels)@,
            v0 == channels_view(channels@),
            assoc_unique(v0),
            i <= n,
            forall|m: int| 0 <= m < i ==> (#[trigger] channels@[m]).id != channel.id,
        decreases n - i,
    {
        if channels[i].id == channel.id {
            let ghost id = channel.id;
            let ghost c = channel;
            channels.set(i, channel);
            proof {
                lemma_assoc_update(v0, i as int, c);
                assert(channels_view(channels@) =~= v0.update(i as int, (id, c)));
            }
            return;
        }
        i = i + 1;
    }
    proof {
        lemma_assoc_contains(v0, channel.id);
        assert forall|m: int| 0 <= m < n implies (#[trigger] v0[m]).0 != channel.id by {
            assert(v0[m].0 == channels@[m].id);
        }
        lemma_assoc_push(v0, channel.id, channel);
    }
    let ghost c = channel;
    channels.push(channel);
    assert(channels_view(channels@) =~= v0.push((c.id, c)));
}

/// Removes the channel `id` from `channels`.
fn unset_channel(channels: &mut Vec<CachedChannel>, id: ChannelId)
    requires
        assoc_unique(channels_view(old(channels)@)),
    ensures
        assoc_unique(channels_view(final(channels)@)),
        assoc_map(channels_view(final(channels)@)) == assoc_map(channels_view(old(channels)@)).remove(id),
{
    let ghost v0 = channels_view(channels@);
    let n = channels.len();
    let mut i: usize = 0;
    while i < n
        invariant
            n == channels@.len(),
            channels@ == old(channels)@,
            v0 == channels_view(channels@),
            assoc_unique(v0),
            i <= n,
            forall|m: int| 0 <= m < i ==> (#[trigger] channels@[m]).id != id,
        decreases n - i,
    {
        if channels[i].id == id {
            proof {
                lemma_assoc_remove(v0, i as int);
            }
            let _ = channels.remove(i);
            assert(channels_view(channels@) =~= v0.remove(i as int));
            return;
        }
        i = i + 1;
    }
    proof {
        lemma_assoc_contains(v0, id);
        assert forall|m: int| 0 <= m < n implies (#[trigger] v0[m]).0 != id by {
            assert(v0[m].0 == channels@[m].id);
        }
        assert(assoc_map(v0) =~= assoc_map(v0).remove(id));
    }
}

fn find_channel(channels: &Vec<CachedChannel>, id: ChannelId) -> (r: Option<CachedChannel>)
    requires
        assoc_unique(channels_view(channels@)),
    ensures
        r == (if assoc_map(channels_view(channels@)).contains_key(id) {
            Some(assoc_map(channels_view(channels@))[id])
        } else {
            None
        }),
{
    let ghost v0 = channels_view(channels@);
    let n = channels.len();
    let mut i: usize = 0;
    while i < n
        invariant
            n == channels@.len(),
            v0 == channels_view(channels@),
            assoc_unique(v0),
            i <= n,
            forall|m: int| 0 <= m < i ==> (#[trigger] channels@[m]).id != id,
        decreases n - i,
    {
        if channels[i].id == id {
            proof {
                lemma_assoc_value(v0, i as int);
            }
            return Some(channels[i].duplicate());
        }
        i = i + 1;
    }
    proof {
        lemma_assoc_contains(v0, id);
        assert forall|m: int| 0 <= m < n implies (#[trigger] v0[m]).0 != id by {
            assert(v0[m].0 == channels@[m].id);
        }
    }
    None
}

spec fn guild_entries_of(gs: Seq<GuildCache>) -> Seq<(GuildId, GuildView)> {
    gs.map_values(|g: GuildCache| (g.guild.id, g.view_of()))
}

pub open spec fn members_in(gs: Map<GuildId, GuildView>, g: GuildId) -> Seq<(UserId, CachedMember)> {
    if gs.contains_key(g) {
        gs[g].members
    } else {
        Seq::empty()
    }
}

pub open spec fn messages_in(gs: Map<GuildId, GuildView>, g: GuildId) -> Seq<(MessageId, CachedMessage)> {
    if gs.contains_key(g) {
        gs[g].messages
    } else {
        Seq::empty()
    }
}

pub open spec fn channels_in(gs: Map<GuildId, GuildView>, g: GuildId) -> Map<ChannelId, CachedChannel> {
    if gs.contains_key(g) {
        gs[g].channels
    } else {
        Map::empty()
    }
}

/// The shard that serves guild `id` when the guilds are split over `total`.
pub open spec fn shard_of(id: GuildId, total: u64) -> u64 {
    ((id / 4194304) % total) as u64
}

pub open spec fn with_members(m: Map<GuildId, GuildView>, g: GuildId, members: Seq<(UserId, CachedMember)>) -> Map<
    GuildId,
    GuildView,
> {
    m.insert(g, GuildView { members, ..m[g] })
}

pub open spec fn with_messages(
    m: Map<GuildId, GuildView>,
    g: GuildId,
    messages: Seq<(MessageId, CachedMessage)>,
) -> Map<GuildId, GuildView> {
    m.insert(g, GuildView { messages, ..m[g] })
}

pub open spec fn with_roles(m: Map<GuildId, GuildView>, g: GuildId, roles: Map<RoleId, CachedRole>) -> Map<
    GuildId,
    GuildView,
> {
    m.insert(g, GuildView { roles, ..m[g] })
}

pub open spec fn with_channels(
    m: Map<GuildId, GuildView>,
    g: GuildId,
    channels: Map<ChannelId, CachedChannel>,
) -> Map<GuildId, GuildView> {
    m.insert(g, GuildView { channels, ..m[g] })
}

/// `new` is `old` after storing each entry of `es` in turn.
pub open spec fn lru_put_all<V>(old: Seq<(u64, V)>, new: Seq<(u64, V)>, es: Seq<(u64, V)>, cap: nat) -> bool
    decreases es.len(),
{
    if es.len() == 0 {
        new == old
    } else {
        exists|mid: Seq<(u64, V)>|
            lru_put_all(old, mid, es.drop_last(), cap) && #[trigger] lru_put(mid, new, es.last().0, es.last().1, cap)
    }
}

pub open spec fn sum_roles(s: Seq<(GuildId, GuildView)>) -> nat
    decreases s.len(),
{
    if s.len() == 0 {
        0
    } else {
        sum_roles(s.drop_last()) + s.last().1.roles.dom().len()
    }
}

pub open spec fn sum_members(s: Seq<(GuildId, GuildView)>) -> nat
    decreases s.len(),
{
    if s.len() == 0 {
        0
    } else {
        sum_members(s.drop_last()) + s.last().1.members.len()
    }
}

pub open spec fn sum_channels(s: Seq<(GuildId, GuildView)>) -> nat
    decreases s.len(),
{
    if s.len() == 0 {
        0
    } else {
        sum_channels(s.drop_last()) + s.last().1.channels.dom().len()
    }
}

pub open spec fn sum_messages(s: Seq<(GuildId, GuildView)>) -> nat
    decreases s.len(),
{
    if s.len() == 0 {
        0
    } else {
        sum_messages(s.drop_last()) + s.last().1.messages.len()
    }
}

pub open spec fn capped_count(n: nat) -> usize {
    if n > usize::MAX {
        usize::MAX
    } else {
        n as usize
    }
}

/// A user seen in an event, with their member data where the event carries it.
pub struct SeenUser {
    pub user: CachedUser,
    pub member: Option<CachedMember>,
}

pub open spec fn seen_users(p: Seq<SeenUser>) -> Seq<(UserId, CachedUser)> {
    p.map_values(|x: SeenUser| (x.user.id, x.user))
}

pub open spec fn seen_members(p: Seq<SeenUser>) -> Seq<(UserId, CachedMember)>
    decreases p.len(),
{
    if p.len() == 0 {
        Seq::empty()
    } else {
        match p.last().member {
            Some(m) => seen_members(p.drop_last()).push((p.last().user.id, m)),
            None => seen_members(p.drop_last()),
        }
    }
}

/// A message as the cache sees it.
pub struct MessageEvent {
    pub id: MessageId,
    pub guild_id: Option<GuildId>,
    pub author: CachedUser,
    pub member: Option<CachedMember>,
    pub mentions: Vec<SeenUser>,
    pub kind: MessageKind,
}

/// The events that the cache follows.
pub enum CacheEvent {
    /// This process is shard `shard_number` of `shard_total`.
    Ready { shard_number: u64, shard_total: u64 },
    ChannelUpsert { guild_id: Option<GuildId>, channel: CachedChannel },
    ChannelDelete { guild_id: GuildId, channel_id: ChannelId },
    GuildCreate { guild: CachedGuild, roles: Vec<CachedRole>, channels: Vec<CachedChannel> },
    GuildUpdate { guild: CachedGuild, roles: Vec<CachedRole> },
    GuildDelete { guild_id: GuildId },
    UserSeen { user: CachedUser },
    MemberUpsert { guild_id: GuildId, user: CachedUser, member: CachedMember },
    MemberChunk { guild_id: GuildId, members: Vec<SeenUser>, not_found: Vec<UserId>, nonce: Option<String> },
    MemberRemove { guild_id: GuildId, user: CachedUser },
    MessageCreate { message: MessageEvent },
    MessageUpdate { guild_id: Option<GuildId>, author: Option<CachedUser>, mentions: Vec<SeenUser> },
    MessageDelete { guild_id: GuildId, message_id: MessageId },
    RoleUpsert { guild_id: GuildId, role: CachedRole },
    RoleDelete { guild_id: GuildId, role_id: RoleId },
}

/// The answer to one chunk of a member request: the request it belongs to
/// and the ids that could not be found.
pub struct ChunkResponse {
    pub request: u64,
    pub not_found: Vec<UserId>,
}

pub open spec fn author_seen(author: Option<CachedUser>) -> Seq<SeenUser> {
    match author {
        Some(a) => seq![SeenUser { user: a, member: None }],
        None => Seq::empty(),
    }
}

/// Two chunks of one request drew the same nonce, or a nonce still in use:
/// a broken invariant that the caller treats as fatal.
#[derive(Debug, Clone, Copy, PartialEq, Eq, Structural)]
pub struct NonceCollision;

/// The nonces of the first `k` chunks, each registered for `request`.
pub open spec fn registered(reqs: Seq<MemberChunkRequest>, k: int, request: u64) -> Map<Seq<char>, u64>
    decreases k,
{
    if k <= 0 {
        Map::empty()
    } else {
        registered(reqs, k - 1, request).insert(reqs[k - 1].nonce@, request)
    }
}

proof fn lemma_registered_contains(reqs: Seq<MemberChunkRequest>, k: int, request: u64, x: Seq<char>)
    requires
        0 <= k <= reqs.len(),
    ensures
        registered(reqs, k, request).contains_key(x) <==> exists|j: int| 0 <= j < k && (#[trigger] reqs[j]).nonce@ == x,
    decreases k,
{
    if k > 0 {
        lemma_registered_contains(reqs, k - 1, request, x);
        if registered(reqs, k - 1, request).contains_key(x) {
            let j = choose|j: int| 0 <= j < k - 1 && (#[trigger] reqs[j]).nonce@ == x;
            assert(0 <= j < k && reqs[j].nonce@ == x);
        }
    }
}

/// Counts of what the cache holds.
#[derive(Debug, Clone, Copy, PartialEq, Eq, Structural)]
pub struct CacheStats {
    pub users: usize,
    pub guilds: usize,
    pub roles: usize,
    pub members: usize,
    pub channels: usize,
    pub messages: usize,
}

/// The entity cache.
pub struct Cache {
    users: LruCache<UserId, CachedUser>,
    guilds: Vec<GuildCache>,
    pending_guild_members: Vec<(String, u64)>,
}

proof fn lemma_guild_replaced(s0: Seq<GuildCache>, gi: int, g: GuildCache)
    requires
        assoc_unique(guild_entries_of(s0)),
        0 <= gi < s0.len(),
        g.guild.id == s0[gi].guild.id,
    ensures
        assoc_map(guild_entries_of(s0.update(gi, g))) == assoc_map(guild_entries_of(s0)).insert(
            g.guild.id,
            g.view_of(),
        ),
        assoc_unique(guild_entries_of(s0.update(gi, g))),
{
    let e0 = guild_entries_of(s0);
    assert(e0[gi].0 == g.guild.id);
    lemma_assoc_update(e0, gi, g.view_of());
    assert(guild_entries_of(s0.update(gi, g)) =~= e0.update(gi, (e0[gi].0, g.view_of())));
}

pub open spec fn pending_view(p: Seq<(String, u64)>) -> Seq<(Seq<char>, u64)> {
    p.map_values(|e: (String, u64)| (e.0@, e.1))
}

impl Cache {
    /// The users kept, the most recently used first.
    pub closed spec fn users(&self) -> Seq<(UserId, CachedUser)> {
        user_entries(self.users)
    }

    /// The guilds kept, with what is kept of each.
    pub closed spec fn guilds(&self) -> Map<GuildId, GuildView> {
        assoc_map(guild_entries_of(self.guilds@))
    }

    /// The outstanding member requests: each nonce with its request.
    pub closed spec fn pending(&self) -> Map<Seq<char>, u64> {
        assoc_map(pending_view(self.pending_guild_members@))
    }

    pub closed spec fn wf(&self) -> bool {
        &&& user_capacity(self.users) == USERS_LRU_CACHE_LIMIT
        &&& user_entries(self.users).len() <= USERS_LRU_CACHE_LIMIT
        &&& assoc_unique(guild_entries_of(self.guilds@))
        &&& forall|i: int| 0 <= i < self.guilds@.len() ==> (#[trigger] self.guilds@[i]).wf()
        &&& assoc_unique(pending_view(self.pending_guild_members@))
    }

    pub fn new() -> (r: Cache)
        ensures
            r.wf(),
            r.users() == Seq::<(UserId, CachedUser)>::empty(),
            r.guilds() == Map::<GuildId, GuildView>::empty(),
            r.pending() == Map::<Seq<char>, u64>::empty(),
    {
        let r = Cache {
            users: new_user_lru(USERS_LRU_CACHE_LIMIT),
            guilds: Vec::new(),
            pending_guild_members: Vec::new(),
        };
        assert(guild_entries_of(r.guilds@) =~= Seq::empty());
        assert(pending_view(r.pending_guild_members@) =~= Seq::empty());
        r
    }

    fn guild_index(&self, id: GuildId) -> (r: Option<usize>)
        requires
            self.wf(),
        ensures
            match r {
                Some(i) => i < self.guilds@.len() && self.guilds@[i as int].guild.id == id
                    && self.guilds().contains_key(id) && self.guilds()[id] == self.guilds@[i as int].view_of(),
                None => !self.guilds().contains_key(id),
            },
    {
        let ghost e = guild_entries_of(self.guilds@);
        let n = self.guilds.len();
        let mut i: usize = 0;
        while i < n
            invariant
                n == self.guilds@.len(),
                e == guild_entries_of(self.guilds@),
                assoc_unique(e),
                i <= n,
                forall|m: int| 0 <= m < i ==> (#[trigger] self.guilds@[m]).guild.id != id,
            decreases n - i,
        {
            if self.guilds[i].guild.id == id {
                proof {
                    lemma_assoc_value(e, i as int);
                }
                return Some(i);
            }
            i = i + 1;
        }
        proof {
            lemma_assoc_contains(e, id);
            assert forall|m: int| 0 <= m < n implies (#[trigger] e[m]).0 != id by {
                assert(e[m].0 == self.guilds@[m].guild.id);
            }
        }
        None
    }

    /// The number of guilds kept.
    pub fn get_guild_count(&self) -> (r: usize)
        requires
            self.wf(),
        ensures
            r == self.guilds().dom().len(),
    {
        proof {
            lemma_assoc_len(guild_entries_of(self.guilds@));
        }
        self.guilds.len()
    }

    /// Stores a user, as the most recently used.
    pub fn put_user(&mut self, user: CachedUser)
        requires
            old(self).wf(),
        ensures
            final(self).wf(),
            lru_put(old(self).users(), final(self).users(), user.id, user, USERS_LRU_CACHE_LIMIT as nat),
            final(self).guilds() == old(self).guilds(),
            final(self).pending() == old(self).pending(),
    {
        let ghost u = user;
        put_user_lru(&mut self.users, user.id, user);
        proof {
            lemma_lru_bounded(old(self).users(), self.users(), u.id, u, USERS_LRU_CACHE_LIMIT as nat);
        }
    }

    /// The cached user `user_id`, if any; reading it makes it the most
    /// recently used. On `None` the caller fetches the user and stores it.
    pub fn get_user(&mut self, user_id: UserId) -> (r: Option<CachedUser>)
        requires
            old(self).wf(),
        ensures
            final(self).wf(),
            r == lru_value(old(self).users(), user_id),
            lru_touch(old(self).users(), final(self).users(), user_id),
            final(self).guilds() == old(self).guilds(),
            final(self).pending() == old(self).pending(),
    {
        let r = get_user_lru(&mut self.users, user_id);
        proof {
            lemma_lru_bounded(old(self).users(), self.users(), user_id, arbitrary(), USERS_LRU_CACHE_LIMIT as nat);
        }
        r
    }

    /// Stores a guild's metadata and roles, keeping its members, channels and
    /// messages if it was known.
    pub fn put_guild(&mut self, guild: CachedGuild, roles: Vec<CachedRole>)
        requires
            old(self).wf(),
        ensures
            final(self).wf(),
            final(self).guilds() == old(self).guilds().insert(
                guild.id,
                GuildView {
                    guild,
                    roles: assoc_map(roles_view(roles@)),
                    members: members_in(old(self).guilds(), guild.id),
                    channels: channels_in(old(self).guilds(), guild.id),
                    messages: messages_in(old(self).guilds(), guild.id),
                },
            ),
            final(self).users() == old(self).users(),
            final(self).pending() == old(self).pending(),
    {
        let role_list = build_roles(&roles);
        match self.guild_index(guild.id) {
            Some(gi) => {
                let ghost s0 = self.guilds@;
                let mut g = GuildCache::placeholder();
                self.guilds.set_and_swap(gi, &mut g);
                assert(g == s0[gi as int]);
                g.guild = guild;
                g.roles = role_list;
                let ghost done = g;
                self.guilds.set_and_swap(gi, &mut g);
                proof {
                    assert(self.guilds@ =~= s0.update(gi as int, done));
                    lemma_guild_replaced(s0, gi as int, done);
                    assert(done.view_of() =~= (GuildView {
                        guild: done.guild,
                        roles: assoc_map(roles_view(roles@)),
                        members: members_in(old(self).guilds(), done.guild.id),
                        channels: channels_in(old(self).guilds(), done.guild.id),
                        messages: messages_in(old(self).guilds(), done.guild.id),
                    }));
                    assert forall|m: int| 0 <= m < self.guilds@.len() implies (#[trigger] self.guilds@[m]).wf() by {
                        if m != gi {
                            assert(self.guilds@[m] == s0[m]);
                        }
                    }
                }
            },
            None => {
                let g = GuildCache {
                    guild,
                    roles: role_list,
                    members: new_member_lru(MEMBERS_LRU_CACHE_LIMIT),
                    channels: Vec::new(),
                    messages: new_message_lru(MESSAGES_LRU_CACHE_LIMIT),
                };
                self.push_guild(g);
                proof {
                    assert(g.view_of().channels =~= Map::<ChannelId, CachedChannel>::empty()) by {
                        assert(channels_view(g.channels@) =~= Seq::empty());
                    }
                }
            },
        }
    }

    fn push_guild(&mut self, g: GuildCache)
        requires
            old(self).wf(),
            g.wf(),
            !old(self).guilds().contains_key(g.guild.id),
        ensures
            final(self).wf(),
            final(self).guilds() == old(self).guilds().insert(g.guild.id, g.view_of()),
            final(self).users() == old(self).users(),
            final(self).pending() == old(self).pending(),
    {
        let ghost e0 = guild_entries_of(self.guilds@);
        let ghost gg = g;
        proof {
            lemma_assoc_push(e0, g.guild.id, g.view_of());
        }
        self.guilds.push(g);
        assert(guild_entries_of(self.guilds@) =~= e0.push((gg.guild.id, gg.view_of())));
    }

    /// Stores a guild seen in full: its metadata, roles and channels,
    /// keeping its members and messages if it was known.
    pub fn put_full_guild(&mut self, guild: CachedGuild, roles: Vec<CachedRole>, channels: Vec<CachedChannel>)
        requires
            old(self).wf(),
        ensures
            final(self).wf(),
            final(self).guilds() == old(self).guilds().insert(
                guild.id,
                GuildView {
                    guild,
                    roles: assoc_map(roles_view(roles@)),
                    members: members_in(old(self).guilds(), guild.id),
                    channels: assoc_map(channels_view(text_channels(channels@))),
                    messages: messages_in(old(self).guilds(), guild.id),
                },
            ),
            final(self).users() == old(self).users(),
            final(self).pending() == old(self).pending(),
    {
        let id = guild.id;
        self.put_guild(guild, roles);
        let gi = match self.guild_index(id) {
            Some(gi) => gi,
            None => {
                return;
            },
        };
        let channel_list = build_channels(&channels);
        let ghost s0 = self.guilds@;
        let mut g = GuildCache::placeholder();
        self.guilds.set_and_swap(gi, &mut g);
        assert(g == s0[gi as int]);
        g.channels = channel_list;
        let ghost done = g;
        self.guilds.set_and_swap(gi, &mut g);
        proof {
            assert(self.guilds@ =~= s0.update(gi as int, done));
            lemma_guild_replaced(s0, gi as int, done);
            assert forall|m: int| 0 <= m < self.guilds@.len() implies (#[trigger] self.guilds@[m]).wf() by {
                if m != gi {
                    assert(self.guilds@[m] == s0[m]);
                }
            }
        }
    }

    /// The cached metadata of guild `guild_id`, if any.
    pub fn get_guild(&self, guild_id: GuildId) -> (r: Option<CachedGuild>)
        requires
            self.wf(),
        ensures
            match r {
                Some(g) => self.guilds().contains_key(guild_id) && g.same_as(&self.guilds()[guild_id].guild),
                None => !self.guilds().contains_key(guild_id),
            },
    {
        match self.guild_index(guild_id) {
            Some(gi) => Some(self.guilds[gi].guild.duplicate()),
            None => None,
        }
    }

    /// Forgets guild `guild_id` and all that is kept of it.
    pub fn remove_guild(&mut self, guild_id: GuildId)
        requires
            old(self).wf(),
        ensures
            final(self).wf(),
            final(self).guilds() == old(self).guilds().remove(guild_id),
            final(self).users() == old(self).users(),
            final(self).pending() == old(self).pending(),
    {
        match self.guild_index(guild_id) {
            Some(gi) => {
                let ghost s0 = self.guilds@;
                let ghost e0 = guild_entries_of(s0);
                proof {
                    lemma_assoc_remove(e0, gi as int);
                }
                let _ = self.guilds.remove(gi);
                assert(guild_entries_of(self.guilds@) =~= e0.remove(gi as int));
                assert forall|m: int| 0 <= m < self.guilds@.len() implies (#[trigger] self.guilds@[m]).wf() by {
                    if m < gi {
                        assert(self.guilds@[m] == s0[m]);
                    } else {
                        assert(self.guilds@[m] == s0[m + 1]);
                    }
                }
            },
            None => {
                assert(self.guilds() =~= old(self).guilds().remove(guild_id));
            },
        }
    }

    fn take_guild(&mut self, gi: usize) -> (g: GuildCache)
        requires
            gi < old(self).guilds@.len(),
        ensures
            g == old(self).guilds@[gi as int],
            final(self).guilds@ == old(self).guilds@.update(gi as int, final(self).guilds@[gi as int]),
            final(self).users == old(self).users,
            final(self).pending_guild_members == old(self).pending_guild_members,
    {
        let mut g = GuildCache::placeholder();
        self.guilds.set_and_swap(gi, &mut g);
        g
    }

    fn restore_guild(&mut self, gi: usize, g: GuildCache, s0: Ghost<Seq<GuildCache>>)
        requires
            gi < s0@.len(),
            old(self).guilds@ == s0@.update(gi as int, old(self).guilds@[gi as int]),
            assoc_unique(guild_entries_of(s0@)),
            forall|i: int| 0 <= i < s0@.len() ==> (#[trigger] s0@[i]).wf(),
            assoc_unique(pending_view(old(self).pending_guild_members@)),
            user_capacity(old(self).users) == USERS_LRU_CACHE_LIMIT,
            user_entries(old(self).users).len() <= USERS_LRU_CACHE_LIMIT,
            g.wf(),
            g.guild.id == s0@[gi as int].guild.id,
        ensures
            final(self).wf(),
            final(self).guilds() == assoc_map(guild_entries_of(s0@)).insert(g.guild.id, g.view_of()),
            final(self).users == old(self).users,
            final(self).pending_guild_members == old(self).pending_guild_members,
    {
        let ghost gg = g;
        let mut g = g;
        self.guilds.set_and_swap(gi, &mut g);
        proof {
            assert(self.guilds@ =~= s0@.update(gi as int, gg));
            lemma_guild_replaced(s0@, gi as int, gg);
            assert forall|m: int| 0 <= m < self.guilds@.len() implies (#[trigger] self.guilds@[m]).wf() by {
                if m != gi {
                    assert(self.guilds@[m] == s0@[m]);
                }
            }
        }
    }

    /// Stores the member data of user `user_id` in guild `guild_id`, as the
    /// most recently used; nothing is stored for a guild not kept.
    pub fn put_member(&mut self, guild_id: GuildId, user_id: UserId, member: CachedMember)
        requires
            old(self).wf(),
        ensures
            final(self).wf(),
            old(self).guilds().contains_key(guild_id) ==> final(self).guilds() == with_members(
                old(self).guilds(),
                guild_id,
                final(self).guilds()[guild_id].members,
            ) && lru_put(
                old(self).guilds()[guild_id].members,
                final(self).guilds()[guild_id].members,
                user_id,
                member,
                MEMBERS_LRU_CACHE_LIMIT as nat,
            ),
            !old(self).guilds().contains_key(guild_id) ==> final(self).guilds() == old(self).guilds(),
            final(self).users() == old(self).users(),
            final(self).pending() == old(self).pending(),
    {
        if let Some(gi) = self.guild_index(guild_id) {
            let ghost s0 = self.guilds@;
            let mut g = self.take_guild(gi);
            let ghost m0 = member_entries(g.members);
            let ghost mm = member;
            put_member_lru(&mut g.members, user_id, member);
            proof {
                lemma_lru_bounded(m0, member_entries(g.members), user_id, mm, MEMBERS_LRU_CACHE_LIMIT as nat);
            }
            self.restore_guild(gi, g, Ghost(s0));
            proof {
                assert(self.guilds()[guild_id].members == member_entries(g.members));
                assert(self.guilds() =~= with_members(old(self).guilds(), guild_id, member_entries(g.members)));
            }
        }
    }

    /// Stores a user and their member data in guild `guild_id`.
    pub fn put_full_member(&mut self, guild_id: GuildId, user: CachedUser, member: CachedMember)
        requires
            old(self).wf(),
        ensures
            final(self).wf(),
            lru_put(old(self).users(), final(self).users(), user.id, user, USERS_LRU_CACHE_LIMIT as nat),
            old(self).guilds().contains_key(guild_id) ==> final(self).guilds() == with_members(
                old(self).guilds(),
                guild_id,
                final(self).guilds()[guild_id].members,
            ) && lru_put(
                old(self).guilds()[guild_id].members,
                final(self).guilds()[guild_id].members,
                user.id,
                member,
                MEMBERS_LRU_CACHE_LIMIT as nat,
            ),
            !old(self).guilds().contains_key(guild_id) ==> final(self).guilds() == old(self).guilds(),
            final(self).pending() == old(self).pending(),
    {
        let id = user.id;
        self.put_user(user);
        self.put_member(guild_id, id, member);
    }

    /// The cached member data of user `user_id` in guild `guild_id`, if any;
    /// reading it makes it the most recently used.
    pub fn get_member(&mut self, guild_id: GuildId, user_id: UserId) -> (r: Option<CachedMember>)
        requires
            old(self).wf(),
        ensures
            final(self).wf(),
            match lru_value(members_in(old(self).guilds(), guild_id), user_id) {
                Some(m) => r matches Some(x) && x.same_as(&m),
                None => r is None,
            },
            old(self).guilds().contains_key(guild_id) ==> final(self).guilds() == with_members(
                old(self).guilds(),
                guild_id,
                final(self).guilds()[guild_id].members,
            ) && lru_touch(
                old(self).guilds()[guild_id].members,
                final(self).guilds()[guild_id].members,
                user_id,
            ),
            !old(self).guilds().contains_key(guild_id) ==> final(self).guilds() == old(self).guilds(),
            final(self).users() == old(self).users(),
            final(self).pending() == old(self).pending(),
    {
        match self.guild_index(guild_id) {
            Some(gi) => {
                let ghost s0 = self.guilds@;
                let mut g = self.take_guild(gi);
                let ghost m0 = member_entries(g.members);
                let r = get_member_lru(&mut g.members, user_id);
                proof {
                    lemma_lru_bounded(m0, member_entries(g.members), user_id, arbitrary(), MEMBERS_LRU_CACHE_LIMIT as nat);
                }
                self.restore_guild(gi, g, Ghost(s0));
                proof {
                    assert(self.guilds() =~= with_members(old(self).guilds(), guild_id, member_entries(g.members)));
                }
                r
            },
            None => {
                assert(lru_index(Seq::<(UserId, CachedMember)>::empty(), user_id) is None);
                None
            },
        }
    }

    /// Whether the member data of `user_id` in guild `guild_id` is kept;
    /// nothing is reordered.
    pub fn member_is_cached(&self, guild_id: GuildId, user_id: UserId) -> (r: bool)
        requires
            self.wf(),
        ensures
            r == lru_index(members_in(self.guilds(), guild_id), user_id) is Some,
    {
        match self.guild_index(guild_id) {
            Some(gi) => member_lru_contains(&self.guilds[gi].members, user_id),
            None => {
                assert(lru_index(Seq::<(UserId, CachedMember)>::empty(), user_id) is None);
                false
            },
        }
    }

    /// Forgets the member data of `user_id` in guild `guild_id`.
    pub fn remove_member(&mut self, guild_id: GuildId, user_id: UserId)
        requires
            old(self).wf(),
        ensures
            final(self).wf(),
            old(self).guilds().contains_key(guild_id) ==> final(self).guilds() == with_members(
                old(self).guilds(),
                guild_id,
                final(self).guilds()[guild_id].members,
            ) && lru_pop(
                old(self).guilds()[guild_id].members,
                final(self).guilds()[guild_id].members,
                user_id,
            ),
            !old(self).guilds().contains_key(guild_id) ==> final(self).guilds() == old(self).guilds(),
            final(self).users() == old(self).users(),
            final(self).pending() == old(self).pending(),
    {
        if let Some(gi) = self.guild_index(guild_id) {
            let ghost s0 = self.guilds@;
            let mut g = self.take_guild(gi);
            let ghost m0 = member_entries(g.members);
            pop_member_lru(&mut g.members, user_id);
            proof {
                lemma_lru_bounded(m0, member_entries(g.members), user_id, arbitrary(), MEMBERS_LRU_CACHE_LIMIT as nat);
            }
            self.restore_guild(gi, g, Ghost(s0));
            proof {
                assert(self.guilds() =~= with_members(old(self).guilds(), guild_id, member_entries(g.members)));
            }
        }
    }

    /// Stores a message of guild `guild_id`, as the most recently used.
    pub fn put_message(&mut self, guild_id: GuildId, message_id: MessageId, message: CachedMessage)
        requires
            old(self).wf(),
        ensures
            final(self).wf(),
            old(self).guilds().contains_key(guild_id) ==> final(self).guilds() == with_messages(
                old(self).guilds(),
                guild_id,
                final(self).guilds()[guild_id].messages,
            ) && lru_put(
                old(self).guilds()[guild_id].messages,
                final(self).guilds()[guild_id].messages,
                message_id,
                message,
                MESSAGES_LRU_CACHE_LIMIT as nat,
            ),
            !old(self).guilds().contains_key(guild_id) ==> final(self).guilds() == old(self).guilds(),
            final(self).users() == old(self).users(),
            final(self).pending() == old(self).pending(),
    {
        if let Some(gi) = self.guild_index(guild_id) {
            let ghost s0 = self.guilds@;
            let mut g = self.take_guild(gi);
            let ghost m0 = message_entries(g.messages);
            put_message_lru(&mut g.messages, message_id, message);
            proof {
                lemma_lru_bounded(m0, message_entries(g.messages), message_id, message, MESSAGES_LRU_CACHE_LIMIT as nat);
            }
            self.restore_guild(gi, g, Ghost(s0));
            proof {
                assert(self.guilds() =~= with_messages(old(self).guilds(), guild_id, message_entries(g.messages)));
            }
        }
    }

    /// The cached message `message_id` of guild `guild_id`, if any; a message
    /// outside any guild is never cached.
    pub fn get_message(&mut self, guild_id: Option<GuildId>, message_id: MessageId) -> (r: Option<CachedMessage>)
        requires
            old(self).wf(),
        ensures
            final(self).wf(),
            r == (match guild_id {
                Some(g) => lru_value(messages_in(old(self).guilds(), g), message_id),
                None => None,
            }),
            match guild_id {
                Some(g) => if old(self).guilds().contains_key(g) {
                    final(self).guilds() == with_messages(old(self).guilds(), g, final(self).guilds()[g].messages)
                        && lru_touch(old(self).guilds()[g].messages, final(self).guilds()[g].messages, message_id)
                } else {
                    final(self).guilds() == old(self).guilds()
                },
                None => final(self).guilds() == old(self).guilds(),
            },
            final(self).users() == old(self).users(),
            final(self).pending() == old(self).pending(),
    {
        let guild_id = match guild_id {
            Some(g) => g,
            None => {
                return None;
            },
        };
        match self.guild_index(guild_id) {
            Some(gi) => {
                let ghost s0 = self.guilds@;
                let mut g = self.take_guild(gi);
                let ghost m0 = message_entries(g.messages);
                let r = get_message_lru(&mut g.messages, message_id);
                proof {
                    lemma_lru_bounded(m0, message_entries(g.messages), message_id, arbitrary(), MESSAGES_LRU_CACHE_LIMIT as nat);
                }
                self.restore_guild(gi, g, Ghost(s0));
                proof {
                    assert(self.guilds() =~= with_messages(old(self).guilds(), guild_id, message_entries(g.messages)));
                }
                r
            },
            None => {
                assert(lru_index(Seq::<(MessageId, CachedMessage)>::empty(), message_id) is None);
                None
            },
        }
    }

    /// Forgets message `message_id` of guild `guild_id`.
    pub fn remove_message(&mut self, guild_id: GuildId, message_id: MessageId)
        requires
            old(self).wf(),
        ensures
            final(self).wf(),
            old(self).guilds().contains_key(guild_id) ==> final(self).guilds() == with_messages(
                old(self).guilds(),
                guild_id,
                final(self).guilds()[guild_id].messages,
            ) && lru_pop(
                old(self).guilds()[guild_id].messages,
                final(self).guilds()[guild_id].messages,
                message_id,
            ),
            !old(self).guilds().contains_key(guild_id) ==> final(self).guilds() == old(self).guilds(),
            final(self).users() == old(self).users(),
            final(self).pending() == old(self).pending(),
    {
        if let Some(gi) = self.guild_index(guild_id) {
            let ghost s0 = self.guilds@;
            let mut g = self.take_guild(gi);
            let ghost m0 = message_entries(g.messages);
            pop_message_lru(&mut g.messages, message_id);
            proof {
                lemma_lru_bounded(m0, message_entries(g.messages), message_id, arbitrary(), MESSAGES_LRU_CACHE_LIMIT as nat);
            }
            self.restore_guild(gi, g, Ghost(s0));
            proof {
                assert(self.guilds() =~= with_messages(old(self).guilds(), guild_id, message_entries(g.messages)));
            }
        }
    }

    /// Stores a role of guild `guild_id`; nothing for a guild not kept.
    pub fn put_role(&mut self, guild_id: GuildId, role: CachedRole)
        requires
            old(self).wf(),
        ensures
            final(self).wf(),
            final(self).guilds() == (if old(self).guilds().contains_key(guild_id) {
                with_roles(old(self).guilds(), guild_id, old(self).guilds()[guild_id].roles.insert(role.id, role))
            } else {
                old(self).guilds()
            }),
            final(self).users() == old(self).users(),
            final(self).pending() == old(self).pending(),
    {
        if let Some(gi) = self.guild_index(guild_id) {
            let ghost s0 = self.guilds@;
            let mut g = self.take_guild(gi);
            set_role(&mut g.roles, role);
            self.restore_guild(gi, g, Ghost(s0));
            proof {
                assert(self.guilds() =~= with_roles(old(self).guilds(), guild_id, old(self).guilds()[guild_id].roles.insert(role.id, role)));
            }
        }
    }

    /// Forgets role `role_id` of guild `guild_id`.
    pub fn remove_role(&mut self, guild_id: GuildId, role_id: RoleId)
        requires
            old(self).wf(),
        ensures
            final(self).wf(),
            final(self).guilds() == (if old(self).guilds().contains_key(guild_id) {
                with_roles(old(self).guilds(), guild_id, old(self).guilds()[guild_id].roles.remove(role_id))
            } else {
                old(self).guilds()
            }),
            final(self).users() == old(self).users(),
            final(self).pending() == old(self).pending(),
    {
        if let Some(gi) = self.guild_index(guild_id) {
            let ghost s0 = self.guilds@;
            let mut g = self.take_guild(gi);
            unset_role(&mut g.roles, role_id);
            self.restore_guild(gi, g, Ghost(s0));
            proof {
                assert(self.guilds() =~= with_roles(old(self).guilds(), guild_id, old(self).guilds()[guild_id].roles.remove(role_id)));
            }
        }
    }

    /// The cached role `role_id` of guild `guild_id`, if any.
    pub fn get_role(&self, guild_id: GuildId, role_id: RoleId) -> (r: Option<CachedRole>)
        requires
            self.wf(),
        ensures
            r == (if self.guilds().contains_key(guild_id) && self.guilds()[guild_id].roles.contains_key(role_id) {
                Some(self.guilds()[guild_id].roles[role_id])
            } else {
                None
            }),
    {
        match self.guild_index(guild_id) {
            Some(gi) => {
                assert(self.guilds@[gi as int].wf());
                find_role(&self.guilds[gi].roles, role_id)
            },
            None => None,
        }
    }

    /// Stores a text-capable channel of a kept guild; other channels are not
    /// kept.
    pub fn put_channel(&mut self, guild_id: Option<GuildId>, channel: CachedChannel)
        requires
            old(self).wf(),
        ensures
            final(self).wf(),
            final(self).guilds() == (match guild_id {
                Some(g) => if old(self).guilds().contains_key(g) && text_capable(channel.kind) {
                    with_channels(old(self).guilds(), g, old(self).guilds()[g].channels.insert(channel.id, channel))
                } else {
                    old(self).guilds()
                },
                None => old(self).guilds(),
            }),
            final(self).users() == old(self).users(),
            final(self).pending() == old(self).pending(),
    {
        let guild_id = match guild_id {
            Some(g) => g,
            None => {
                return;
            },
        };
        if !is_text_capable(channel.kind) {
            return;
        }
        if let Some(gi) = self.guild_index(guild_id) {
            let ghost s0 = self.guilds@;
            let ghost c = channel;
            let mut g = self.take_guild(gi);
            set_channel(&mut g.channels, channel);
            self.restore_guild(gi, g, Ghost(s0));
            proof {
                assert(self.guilds() =~= with_channels(old(self).guilds(), guild_id, old(self).guilds()[guild_id].channels.insert(c.id, c)));
            }
        }
    }

    /// Forgets channel `channel_id` of guild `guild_id`.
    pub fn remove_channel(&mut self, guild_id: GuildId, channel_id: ChannelId)
        requires
            old(self).wf(),
        ensures
            final(self).wf(),
            final(self).guilds() == (if old(self).guilds().contains_key(guild_id) {
                with_channels(old(self).guilds(), guild_id, old(self).guilds()[guild_id].channels.remove(channel_id))
            } else {
                old(self).guilds()
            }),
            final(self).users() == old(self).users(),
            final(self).pending() == old(self).pending(),
    {
        if let Some(gi) = self.guild_index(guild_id) {
            let ghost s0 = self.guilds@;
            let mut g = self.take_guild(gi);
            unset_channel(&mut g.channels, channel_id);
            self.restore_guild(gi, g, Ghost(s0));
            proof {
                assert(self.guilds() =~= with_channels(old(self).guilds(), guild_id, old(self).guilds()[guild_id].channels.remove(channel_id)));
            }
        }
    }

    /// The cached channel `channel_id` of guild `guild_id`, if any.
    pub fn get_channel(&self, guild_id: GuildId, channel_id: ChannelId) -> (r: Option<CachedChannel>)
        requires
            self.wf(),
        ensures
            r == (if self.guilds().contains_key(guild_id) && self.guilds()[guild_id].channels.contains_key(channel_id) {
                Some(self.guilds()[guild_id].channels[channel_id])
            } else {
                None
            }),
    {
        match self.guild_index(guild_id) {
            Some(gi) => {
                assert(self.guilds@[gi as int].wf());
                find_channel(&self.guilds[gi].channels, channel_id)
            },
            None => None,
        }
    }

    /// The guilds kept, each once, in the order they were first seen.
    pub closed spec fn guild_list(&self) -> Seq<(GuildId, GuildView)> {
        guild_entries_of(self.guilds@)
    }

    pub proof fn lemma_guild_list(&self)
        requires
            self.wf(),
        ensures
            assoc_map(self.guild_list()) == self.guilds(),
            assoc_unique(self.guild_list()),
    {
    }

    /// Counts of what is kept; the sums saturate at `usize::MAX`.
    pub fn get_stats(&self) -> (r: CacheStats)
        requires
            self.wf(),
        ensures
            r.users == self.users().len(),
            r.guilds == self.guilds().dom().len(),
            r.roles == capped_count(sum_roles(self.guild_list())),
            r.members == capped_count(sum_members(self.guild_list())),
            r.channels == capped_count(sum_channels(self.guild_list())),
            r.messages == capped_count(sum_messages(self.guild_list())),
    {
        let ghost e = guild_entries_of(self.guilds@);
        let mut roles: usize = 0;
        let mut members: usize = 0;
        let mut channels: usize = 0;
        let mut messages: usize = 0;
        let n = self.guilds.len();
        let mut i: usize = 0;
        assert(e.subrange(0, 0) =~= Seq::empty());
        while i < n
            invariant
                n == self.guilds@.len(),
                e == guild_entries_of(self.guilds@),
                self.wf(),
                i <= n,
                roles == capped_count(sum_roles(e.subrange(0, i as int))),
                members == capped_count(sum_members(e.subrange(0, i as int))),
                channels == capped_count(sum_channels(e.subrange(0, i as int))),
                messages == capped_count(sum_messages(e.subrange(0, i as int))),
            decreases n - i,
        {
            let g = &self.guilds[i];
            assert(g.wf());
            proof {
                lemma_assoc_len(roles_view(g.roles@));
                lemma_assoc_len(channels_view(g.channels@));
            }
            let ghost p = e.subrange(0, i + 1);
            assert(p.drop_last() =~= e.subrange(0, i as int));
            assert(p.last() == (g.guild.id, g.view_of()));
            roles = roles.saturating_add(g.roles.len());
            members = members.saturating_add(member_lru_len(&g.members));
            channels = channels.saturating_add(g.channels.len());
            messages = messages.saturating_add(message_lru_len(&g.messages));
            i = i + 1;
        }
        assert(e.subrange(0, n as int) =~= e);
        proof {
            lemma_assoc_len(e);
        }
        CacheStats {
            users: user_lru_len(&self.users),
            guilds: self.guilds.len(),
            roles,
            members,
            channels,
            messages,
        }
    }

    /// Drops the guilds of shard `number` when the guilds are split over
    /// `total` shards: that shard has just started a fresh session, which
    /// announces its guilds again, so what was kept of them may be stale.
    pub fn retain_shard_guilds(&mut self, number: u64, total: u64)
        requires
            old(self).wf(),
            total > 0,
        ensures
            final(self).wf(),
            final(self).guilds() == old(self).guilds().restrict(
                old(self).guilds().dom().filter(|id: GuildId| shard_of(id, total) != number),
            ),
            final(self).users() == old(self).users(),
            final(self).pending() == old(self).pending(),
    {
        let ghost g0 = old(self).guilds();
        let mut i: usize = 0;
        while i < self.guilds.len()
            invariant
                self.wf(),
                self.users == old(self).users,
                self.pending_guild_members == old(self).pending_guild_members,
                total > 0,
                i <= self.guilds@.len(),
                forall|m: int| 0 <= m < i ==> shard_of((#[trigger] self.guilds@[m]).guild.id, total) != number,
                forall|k: GuildId| shard_of(k, total) != number ==> (#[trigger] self.guilds().contains_key(k)
                    <==> g0.contains_key(k)),
                forall|k: GuildId| #[trigger] self.guilds().contains_key(k) ==> g0.contains_key(k)
                    && self.guilds()[k] == g0[k],
            decreases self.guilds@.len() - i,
        {
            let id = self.guilds[i].guild.id;
            if (id / 4194304) % total == number {
                let ghost s0 = self.guilds@;
                let ghost e0 = guild_entries_of(s0);
                let ghost hprev = self.guilds();
                proof {
                    lemma_assoc_remove(e0, i as int);
                }
                let _ = self.guilds.remove(i);
                assert(guild_entries_of(self.guilds@) =~= e0.remove(i as int));
                assert(e0[i as int].0 == id);
                assert forall|m: int| 0 <= m < self.guilds@.len() implies (#[trigger] self.guilds@[m]).wf() by {
                    if m < i {
                        assert(self.guilds@[m] == s0[m]);
                    } else {
                        assert(self.guilds@[m] == s0[m + 1]);
                    }
                }
                assert forall|m: int| 0 <= m < i implies shard_of((#[trigger] self.guilds@[m]).guild.id, total) != number by {
                    assert(self.guilds@[m] == s0[m]);
                }
                assert forall|k: GuildId| shard_of(k, total) != number implies (#[trigger] self.guilds().contains_key(k)
                    <==> g0.contains_key(k)) by {
                    assert(hprev.contains_key(k) <==> g0.contains_key(k));
                }
                assert forall|k: GuildId| #[trigger] self.guilds().contains_key(k) implies g0.contains_key(k)
                    && self.guilds()[k] == g0[k] by {
                    assert(hprev.contains_key(k));
                }
            } else {
                i = i + 1;
            }
        }
        proof {
            let e = guild_entries_of(self.guilds@);
            assert forall|k: GuildId| #[trigger] self.guilds().contains_key(k) implies shard_of(k, total) != number by {
                lemma_assoc_contains(e, k);
                let m = choose|m: int| 0 <= m < e.len() && (#[trigger] e[m]).0 == k;
                assert(self.guilds@[m].guild.id == k);
            }
            assert(self.guilds() =~= g0.restrict(g0.dom().filter(|id: GuildId| shard_of(id, total) != number)));
        }
    }

    /// Splits `user_ids` into those whose member data in guild `guild_id` is
    /// kept and the others, each in its order.
    pub fn partition_cached_members(&self, guild_id: GuildId, user_ids: &Vec<UserId>) -> (r: (Vec<UserId>, Vec<UserId>))
        requires
            self.wf(),
        ensures
            r.0@ == user_ids@.filter(|u: UserId| lru_index(members_in(self.guilds(), guild_id), u) is Some),
            r.1@ == user_ids@.filter(|u: UserId| lru_index(members_in(self.guilds(), guild_id), u) is None),
    {
        let ghost ms = members_in(self.guilds(), guild_id);
        let mut cached: Vec<UserId> = Vec::new();
        let mut missing: Vec<UserId> = Vec::new();
        let n = user_ids.len();
        let mut i: usize = 0;
        proof {
            reveal(Seq::filter);
            assert(user_ids@.subrange(0, 0) =~= Seq::<UserId>::empty());
        }
        while i < n
            invariant
                n == user_ids@.len(),
                self.wf(),
                ms == members_in(self.guilds(), guild_id),
                i <= n,
                cached@ == user_ids@.subrange(0, i as int).filter(|u: UserId| lru_index(ms, u) is Some),
                missing@ == user_ids@.subrange(0, i as int).filter(|u: UserId| lru_index(ms, u) is None),
            decreases n - i,
        {
            let u = user_ids[i];
            proof {
                reveal(Seq::filter);
                assert(user_ids@.subrange(0, i + 1).drop_last() =~= user_ids@.subrange(0, i as int));
            }
            if self.member_is_cached(guild_id, u) {
                cached.push(u);
            } else {
                missing.push(u);
            }
            i = i + 1;
        }
        assert(user_ids@.subrange(0, n as int) =~= user_ids@);
        (cached, missing)
    }

    fn nonce_index(&self, nonce: &str) -> (r: Option<usize>)
        requires
            self.wf(),
        ensures
            match r {
                Some(i) => i < self.pending_guild_members@.len() && self.pending_guild_members@[i as int].0@ == nonce@,
                None => !self.pending().contains_key(nonce@),
            },
    {
        let ghost e = pending_view(self.pending_guild_members@);
        let n = self.pending_guild_members.len();
        let mut i: usize = 0;
        while i < n
            invariant
                n == self.pending_guild_members@.len(),
                e == pending_view(self.pending_guild_members@),
                i <= n,
                forall|m: int| 0 <= m < i ==> (#[trigger] self.pending_guild_members@[m]).0@ != nonce@,
            decreases n - i,
        {
            if text_is(self.pending_guild_members[i].0.as_str(), nonce) {
                return Some(i);
            }
            i = i + 1;
        }
        proof {
            lemma_assoc_contains(e, nonce@);
            assert forall|m: int| 0 <= m < n implies (#[trigger] e[m]).0 != nonce@ by {
                assert(e[m].0 == self.pending_guild_members@[m].0@);
            }
        }
        None
    }

    /// Registers `nonce` for member request `request`. A nonce already
    /// registered is a collision: nothing changes and `false` comes back.
    pub fn register_member_request(&mut self, nonce: String, request: u64) -> (r: bool)
        requires
            old(self).wf(),
        ensures
            final(self).wf(),
            r == !old(self).pending().contains_key(nonce@),
            r ==> final(self).pending() == old(self).pending().insert(nonce@, request),
            !r ==> final(self).pending() == old(self).pending(),
            final(self).users() == old(self).users(),
            final(self).guilds() == old(self).guilds(),
    {
        if let Some(i) = self.nonce_index(nonce.as_str()) {
            let ghost e = pending_view(self.pending_guild_members@);
            proof {
                assert(e[i as int].0 == nonce@);
                lemma_assoc_contains(e, nonce@);
            }
            return false;
        }
        let ghost e0 = pending_view(self.pending_guild_members@);
        let ghost key = nonce@;
        proof {
            lemma_assoc_push(e0, nonce@, request);
        }
        self.pending_guild_members.push((nonce, request));
        assert(pending_view(self.pending_guild_members@) =~= e0.push((key, request)));
        true
    }

    /// Takes the registration of `nonce`: the request it belongs to, if any.
    pub fn take_member_request(&mut self, nonce: &str) -> (r: Option<u64>)
        requires
            old(self).wf(),
        ensures
            final(self).wf(),
            r == (if old(self).pending().contains_key(nonce@) {
                Some(old(self).pending()[nonce@])
            } else {
                None
            }),
            final(self).pending() == old(self).pending().remove(nonce@),
            final(self).users() == old(self).users(),
            final(self).guilds() == old(self).guilds(),
    {
        match self.nonce_index(nonce) {
            Some(i) => {
                let ghost e0 = pending_view(self.pending_guild_members@);
                proof {
                    lemma_assoc_value(e0, i as int);
                    lemma_assoc_remove(e0, i as int);
                }
                let (_, request) = self.pending_guild_members.remove(i);
                assert(pending_view(self.pending_guild_members@) =~= e0.remove(i as int));
                Some(request)
            },
            None => {
                assert(self.pending() =~= old(self).pending().remove(nonce@));
                None
            },
        }
    }

    /// Stores each seen user, and their member data in guild `g`, in turn.
    pub fn put_people(&mut self, g: Option<GuildId>, people: Vec<SeenUser>)
        requires
            old(self).wf(),
        ensures
            people_stored(*old(self), *final(self), g, seen_users(people@), seen_members(people@)),
    {
        let ghost all = people@;
        let mut people = people;
        let ghost mut done: Seq<SeenUser> = Seq::empty();
        let ghost start = *self;
        proof {
            assert(seen_users(done) =~= Seq::empty());
            if let Some(gid) = g {
                if start.guilds().contains_key(gid) {
                    assert(with_members(start.guilds(), gid, start.guilds()[gid].members) =~= start.guilds());
                }
            }
        }
        while people.len() > 0
            invariant
                done + people@ == all,
                people_stored(start, *self, g, seen_users(done), seen_members(done)),
            decreases people@.len(),
        {
            let ghost before = *self;
            let SeenUser { user, member } = people.remove(0);
            let ghost x = SeenUser { user, member };
            let id = user.id;
            self.put_user(user);
            let ghost after_user = *self;
            proof {
                let nd = done.push(x);
                assert(seen_users(nd).drop_last() =~= seen_users(done));
                assert(seen_users(nd).last() == (x.user.id, x.user));
                assert(lru_put(before.users(), after_user.users(), seen_users(nd).last().0, seen_users(nd).last().1, USERS_LRU_CACHE_LIMIT as nat));
                assert(lru_put_all(start.users(), after_user.users(), seen_users(nd), USERS_LRU_CACHE_LIMIT as nat));
            }
            match (g, member) {
                (Some(gid), Some(m)) => {
                    let ghost mm = m;
                    self.put_member(gid, id, m);
                    proof {
                        let nd = done.push(x);
                        assert(nd.drop_last() =~= done);
                        assert(seen_members(nd) == seen_members(done).push((id, mm)));
                        if start.guilds().contains_key(gid) {
                            assert(after_user.guilds().contains_key(gid));
                            assert(lru_put(after_user.guilds()[gid].members, self.guilds()[gid].members, seen_members(nd).last().0, seen_members(nd).last().1, MEMBERS_LRU_CACHE_LIMIT as nat));
                            assert(seen_members(nd).drop_last() =~= seen_members(done));
                            assert(lru_put_all(start.guilds()[gid].members, self.guilds()[gid].members, seen_members(nd), MEMBERS_LRU_CACHE_LIMIT as nat));
                            assert(self.guilds() =~= with_members(start.guilds(), gid, self.guilds()[gid].members));
                        }
                    }
                },
                _ => {
                    proof {
                        let nd = done.push(x);
                        assert(nd.drop_last() =~= done);
                        if g is Some {
                            assert(x.member is None);
                            assert(seen_members(nd) == seen_members(done));
                        }
                    }
                },
            }
            proof {
                done = done.push(x);
                assert(done + people@ =~= all);
            }
        }
        assert(done =~= all);
    }

    /// Stores a message: its author, the users it mentions with their member
    /// data, and the message itself in its guild.
    pub fn store_message(&mut self, message: MessageEvent)
        requires
            old(self).wf(),
        ensures
            message_stored(*old(self), *final(self), message),
    {
        let ghost m = message;
        let MessageEvent { id, guild_id, author, member, mentions, kind } = message;
        let author_id = author.id;
        let mut people: Vec<SeenUser> = Vec::new();
        people.push(SeenUser { user: author, member });
        let mut mentions = mentions;
        people.append(&mut mentions);
        let ghost all = people@;
        assert(all =~= seq![SeenUser { user: m.author, member: m.member }] + m.mentions@);
        self.put_people(guild_id, people);
        let ghost mid = *self;
        if let Some(g) = guild_id {
            self.put_message(g, id, CachedMessage { author_id, kind });
        }
        assert(people_stored(*old(self), mid, m.guild_id, seen_users(all), seen_members(all)));
        assert(match m.guild_id {
            Some(g) => if mid.guilds().contains_key(g) {
                self.guilds() == with_messages(mid.guilds(), g, self.guilds()[g].messages) && lru_put(
                    mid.guilds()[g].messages,
                    self.guilds()[g].messages,
                    m.id,
                    CachedMessage { author_id: m.author.id, kind: m.kind },
                    MESSAGES_LRU_CACHE_LIMIT as nat,
                ) && self.users() == mid.users() && self.pending() == mid.pending() && self.wf()
            } else {
                self.guilds() == mid.guilds() && self.users() == mid.users() && self.pending() == mid.pending()
                    && self.wf()
            },
            None => *self == mid,
        });
    }

    /// Follows one event. A member chunk that answers a registered request
    /// is handed back, with the request it answers; any other event gives
    /// `None`.
    pub fn update(&mut self, event: CacheEvent) -> (r: Option<ChunkResponse>)
        requires
            old(self).wf(),
        ensures
            final(self).wf(),
            match event {
                CacheEvent::Ready { shard_number, shard_total } => r is None && if shard_total > 0 {
                    final(self).guilds() == old(self).guilds().restrict(
                        old(self).guilds().dom().filter(|id: GuildId| shard_of(id, shard_total) != shard_number),
                    ) && final(self).users() == old(self).users() && final(self).pending() == old(self).pending()
                } else {
                    *final(self) == *old(self)
                },
                CacheEvent::ChannelUpsert { guild_id, channel } => r is None && final(self).guilds() == (match guild_id {
                    Some(g) => if old(self).guilds().contains_key(g) && text_capable(channel.kind) {
                        with_channels(old(self).guilds(), g, old(self).guilds()[g].channels.insert(channel.id, channel))
                    } else {
                        old(self).guilds()
                    },
                    None => old(self).guilds(),
                }) && final(self).users() == old(self).users() && final(self).pending() == old(self).pending(),
                CacheEvent::ChannelDelete { guild_id, channel_id } => r is None && final(self).guilds() == (if old(self).guilds().contains_key(guild_id) {
                    with_channels(old(self).guilds(), guild_id, old(self).guilds()[guild_id].channels.remove(channel_id))
                } else {
                    old(self).guilds()
                }) && final(self).users() == old(self).users() && final(self).pending() == old(self).pending(),
                CacheEvent::GuildCreate { guild, roles, channels } => r is None && final(self).guilds() == old(self).guilds().insert(
                    guild.id,
                    GuildView {
                        guild,
                        roles: assoc_map(roles_view(roles@)),
                        members: members_in(old(self).guilds(), guild.id),
                        channels: assoc_map(channels_view(text_channels(channels@))),
                        messages: messages_in(old(self).guilds(), guild.id),
                    },
                ) && final(self).users() == old(self).users() && final(self).pending() == old(self).pending(),
                CacheEvent::GuildUpdate { guild, roles } => r is None && final(self).guilds() == old(self).guilds().insert(
                    guild.id,
                    GuildView {
                        guild,
                        roles: assoc_map(roles_view(roles@)),
                        members: members_in(old(self).guilds(), guild.id),
                        channels: channels_in(old(self).guilds(), guild.id),
                        messages: messages_in(old(self).guilds(), guild.id),
                    },
                ) && final(self).users() == old(self).users() && final(self).pending() == old(self).pending(),
                CacheEvent::GuildDelete { guild_id } => r is None && final(self).guilds() == old(self).guilds().remove(guild_id)
                    && final(self).users() == old(self).users() && final(self).pending() == old(self).pending(),
                CacheEvent::UserSeen { user } => r is None && lru_put(old(self).users(), final(self).users(), user.id, user, USERS_LRU_CACHE_LIMIT as nat)
                    && final(self).guilds() == old(self).guilds() && final(self).pending() == old(self).pending(),
                CacheEvent::MemberUpsert { guild_id, user, member } => r is None && people_stored(
                    *old(self),
                    *final(self),
                    Some(guild_id),
                    seq![(user.id, user)],
                    seq![(user.id, member)],
                ),
                CacheEvent::MemberChunk { guild_id, members, not_found, nonce } => exists|mid: Cache|
                    people_stored(*old(self), mid, Some(guild_id), seen_users(members@), seen_members(members@))
                        && final(self).users() == mid.users() && final(self).guilds() == mid.guilds() && match nonce {
                        Some(n) => final(self).pending() == mid.pending().remove(n@) && if mid.pending().contains_key(n@) {
                            r matches Some(c) && c.request == mid.pending()[n@] && c.not_found@ == not_found@
                        } else {
                            r is None
                        },
                        None => r is None && final(self).pending() == mid.pending(),
                    },
                CacheEvent::MemberRemove { guild_id, user } => r is None && lru_put(old(self).users(), final(self).users(), user.id, user, USERS_LRU_CACHE_LIMIT as nat)
                    && (old(self).guilds().contains_key(guild_id) ==> final(self).guilds() == with_members(
                        old(self).guilds(),
                        guild_id,
                        final(self).guilds()[guild_id].members,
                    ) && lru_pop(old(self).guilds()[guild_id].members, final(self).guilds()[guild_id].members, user.id))
                    && (!old(self).guilds().contains_key(guild_id) ==> final(self).guilds() == old(self).guilds())
                    && final(self).pending() == old(self).pending(),
                CacheEvent::MessageCreate { message } => r is None && message_stored(*old(self), *final(self), message),
                CacheEvent::MessageUpdate { guild_id, author, mentions } => r is None && people_stored(
                    *old(self),
                    *final(self),
                    guild_id,
                    seen_users(author_seen(author) + mentions@),
                    seen_members(author_seen(author) + mentions@),
                ),
                CacheEvent::MessageDelete { guild_id, message_id } => r is None && (old(self).guilds().contains_key(guild_id)
                    ==> final(self).guilds() == with_messages(old(self).guilds(), guild_id, final(self).guilds()[guild_id].messages)
                    && lru_pop(old(self).guilds()[guild_id].messages, final(self).guilds()[guild_id].messages, message_id))
                    && (!old(self).guilds().contains_key(guild_id) ==> final(self).guilds() == old(self).guilds())
                    && final(self).users() == old(self).users() && final(self).pending() == old(self).pending(),
                CacheEvent::RoleUpsert { guild_id, role } => r is None && final(self).guilds() == (if old(self).guilds().contains_key(guild_id) {
                    with_roles(old(self).guilds(), guild_id, old(self).guilds()[guild_id].roles.insert(role.id, role))
                } else {
                    old(self).guilds()
                }) && final(self).users() == old(self).users() && final(self).pending() == old(self).pending(),
                CacheEvent::RoleDelete { guild_id, role_id } => r is None && final(self).guilds() == (if old(self).guilds().contains_key(guild_id) {
                    with_roles(old(self).guilds(), guild_id, old(self).guilds()[guild_id].roles.remove(role_id))
                } else {
                    old(self).guilds()
                }) && final(self).users() == old(self).users() && final(self).pending() == old(self).pending(),
            },
    {
        match event {
            CacheEvent::Ready { shard_number, shard_total } => {
                if shard_total > 0 {
                    self.retain_shard_guilds(shard_number, shard_total);
                }
                None
            },
            CacheEvent::ChannelUpsert { guild_id, channel } => {
                self.put_channel(guild_id, channel);
                None
            },
            CacheEvent::ChannelDelete { guild_id, channel_id } => {
                self.remove_channel(guild_id, channel_id);
                None
            },
            CacheEvent::GuildCreate { guild, roles, channels } => {
                self.put_full_guild(guild, roles, channels);
                None
            },
            CacheEvent::GuildUpdate { guild, roles } => {
                self.put_guild(guild, roles);
                None
            },
            CacheEvent::GuildDelete { guild_id } => {
                self.remove_guild(guild_id);
                None
            },
            CacheEvent::UserSeen { user } => {
                self.put_user(user);
                None
            },
            CacheEvent::MemberUpsert { guild_id, user, member } => {
                let ghost x = SeenUser { user, member: Some(member) };
                let mut people: Vec<SeenUser> = Vec::new();
                people.push(SeenUser { user, member: Some(member) });
                assert(people@ =~= seq![x]);
                assert(seen_users(people@) =~= seq![(x.user.id, x.user)]);
                assert(seq![x].drop_last() =~= Seq::<SeenUser>::empty());
                assert(seq![x].last() == x);
                assert(seen_members(Seq::<SeenUser>::empty()) == Seq::<(UserId, CachedMember)>::empty());
                assert(seen_members(seq![x]) =~= seq![(x.user.id, x.member->0)]);
                self.put_people(Some(guild_id), people);
                None
            },
            CacheEvent::MemberChunk { guild_id, members, not_found, nonce } => {
                self.put_people(Some(guild_id), members);
                let ghost mid = *self;
                match nonce {
                    Some(n) => match self.take_member_request(n.as_str()) {
                        Some(request) => Some(ChunkResponse { request, not_found }),
                        None => None,
                    },
                    None => None,
                }
            },
            CacheEvent::MemberRemove { guild_id, user } => {
                let id = user.id;
                self.put_user(user);
                self.remove_member(guild_id, id);
                None
            },
            CacheEvent::MessageCreate { message } => {
                self.store_message(message);
                None
            },
            CacheEvent::MessageUpdate { guild_id, author, mentions } => {
                let ghost a = author;
                let ghost ms = mentions@;
                let mut people: Vec<SeenUser> = Vec::new();
                if let Some(user) = author {
                    people.push(SeenUser { user, member: None });
                }
                let mut mentions = mentions;
                people.append(&mut mentions);
                assert(people@ =~= author_seen(a) + ms);
                self.put_people(guild_id, people);
                None
            },
            CacheEvent::MessageDelete { guild_id, message_id } => {
                self.remove_message(guild_id, message_id);
                None
            },
            CacheEvent::RoleUpsert { guild_id, role } => {
                self.put_role(guild_id, role);
                None
            },
            CacheEvent::RoleDelete { guild_id, role_id } => {
                self.remove_role(guild_id, role_id);
                None
            },
        }
    }

    /// Whether the nonces of `reqs` are pairwise distinct and none of them
    /// is registered yet.
    fn nonces_fresh(&self, reqs: &Vec<MemberChunkRequest>) -> (r: bool)
        requires
            self.wf(),
        ensures
            r == (nonces_distinct(reqs@) && forall|j: int|
                0 <= j < reqs@.len() ==> !self.pending().contains_key((#[trigger] reqs@[j]).nonce@)),
    {
        let n = reqs.len();
        let mut i: usize = 0;
        while i < n
            invariant
                n == reqs@.len(),
                i <= n,
                self.wf(),
                forall|j: int| 0 <= j < i ==> !self.pending().contains_key((#[trigger] reqs@[j]).nonce@),
                forall|a: int, b: int|
                    0 <= a < i && 0 <= b < i && a != b ==> (#[trigger] reqs@[a]).nonce@ != (#[trigger] reqs@[b]).nonce@,
            decreases n - i,
        {
            if let Some(p) = self.nonce_index(reqs[i].nonce.as_str()) {
                proof {
                    let e = pending_view(self.pending_guild_members@);
                    assert(e[p as int].0 == reqs@[i as int].nonce@);
                    lemma_assoc_contains(e, reqs@[i as int].nonce@);
                }
                return false;
            }
            let mut j: usize = 0;
            while j < i
                invariant
                    i < n,
                    n == reqs@.len(),
                    j <= i,
                    forall|m: int| 0 <= m < j ==> (#[trigger] reqs@[m]).nonce@ != reqs@[i as int].nonce@,
                decreases i - j,
            {
                if text_is(reqs[j].nonce.as_str(), reqs[i].nonce.as_str()) {
                    assert(!nonces_distinct(reqs@)) by {
                        assert(reqs@[j as int].nonce@ == reqs@[i as int].nonce@);
                    }
                    return false;
                }
                j = j + 1;
            }
            i = i + 1;
        }
        true
    }

    /// Registers every chunk of `reqs` under its nonce for request `request`.
    /// A nonce drawn twice, or one already registered, is a collision: then
    /// nothing is registered.
    pub fn register_member_requests(&mut self, reqs: &Vec<MemberChunkRequest>, request: u64) -> (r: Result<
        (),
        NonceCollision,
    >)
        requires
            old(self).wf(),
        ensures
            final(self).wf(),
            final(self).users() == old(self).users(),
            final(self).guilds() == old(self).guilds(),
            r is Ok <==> (nonces_distinct(reqs@) && forall|j: int|
                0 <= j < reqs@.len() ==> !old(self).pending().contains_key((#[trigger] reqs@[j]).nonce@)),
            r is Ok ==> final(self).pending() == old(self).pending().union_prefer_right(
                registered(reqs@, reqs@.len() as int, request),
            ),
            r is Err ==> final(self).pending() == old(self).pending(),
    {
        if !self.nonces_fresh(reqs) {
            return Err(NonceCollision);
        }
        let n = reqs.len();
        let mut k: usize = 0;
        assert(old(self).pending().union_prefer_right(registered(reqs@, 0, request)) =~= old(self).pending());
        while k < n
            invariant
                n == reqs@.len(),
                k <= n,
                self.wf(),
                self.users() == old(self).users(),
                self.guilds() == old(self).guilds(),
                nonces_distinct(reqs@),
                forall|j: int| 0 <= j < n ==> !old(self).pending().contains_key((#[trigger] reqs@[j]).nonce@),
                self.pending() == old(self).pending().union_prefer_right(registered(reqs@, k as int, request)),
            decreases n - k,
        {
            let ghost before = self.pending();
            proof {
                lemma_registered_contains(reqs@, k as int, request, reqs@[k as int].nonce@);
                if registered(reqs@, k as int, request).contains_key(reqs@[k as int].nonce@) {
                    let j = choose|j: int| 0 <= j < k && (#[trigger] reqs@[j]).nonce@ == reqs@[k as int].nonce@;
                    assert(reqs@[j].nonce@ != reqs@[k as int].nonce@);
                }
            }
            let nonce = reqs[k].nonce.clone();
            let registered_now = self.register_member_request(nonce, request);
            assert(registered_now);
            proof {
                assert(old(self).pending().union_prefer_right(registered(reqs@, k + 1, request)) =~= before.insert(
                    reqs@[k as int].nonce@,
                    request,
                ));
            }
            k = k + 1;
        }
        Ok(())
    }

    /// Prepares a bulk request for `user_ids`: the chunks to send, each
    /// registered under its own fresh nonce for request `request`. A nonce
    /// collision registers nothing.
    pub fn bulk_request_members(&mut self, user_ids: &Vec<UserId>, request: u64) -> (r: Result<
        Vec<MemberChunkRequest>,
        NonceCollision,
    >)
        requires
            old(self).wf(),
        ensures
            final(self).wf(),
            final(self).users() == old(self).users(),
            final(self).guilds() == old(self).guilds(),
            user_ids@.len() == 0 ==> (r matches Ok(reqs) && reqs@.len() == 0),
            r matches Ok(reqs) ==> {
                &&& reqs@.len() == chunk_count(user_ids@.len())
                &&& forall|j: int| 0 <= j < reqs@.len() ==> (#[trigger] reqs@[j]).user_ids@ == chunk_at(user_ids@, j)
                    && nonce_shaped(reqs@[j].nonce@) && !old(self).pending().contains_key(reqs@[j].nonce@)
                &&& nonces_distinct(reqs@)
                &&& final(self).pending() == old(self).pending().union_prefer_right(
                    registered(reqs@, reqs@.len() as int, request),
                )
            },
            r is Err ==> final(self).pending() == old(self).pending(),
    {
        let reqs = plan_member_requests(user_ids);
        match self.register_member_requests(&reqs, request) {
            Ok(()) => Ok(reqs),
            Err(e) => Err(e),
        }
    }

    /// The bounded stores stay within their capacities: at most 5000 users,
    /// and per guild at most 500 members and 100 messages.
    pub proof fn lemma_bounded(&self)
        requires
            self.wf(),
        ensures
            self.users().len() <= USERS_LRU_CACHE_LIMIT,
            forall|g: GuildId| #[trigger] self.guilds().contains_key(g) ==> self.guilds()[g].members.len()
                <= MEMBERS_LRU_CACHE_LIMIT && self.guilds()[g].messages.len() <= MESSAGES_LRU_CACHE_LIMIT,
    {
        let e = guild_entries_of(self.guilds@);
        assert forall|g: GuildId| #[trigger] self.guilds().contains_key(g) implies self.guilds()[g].members.len()
            <= MEMBERS_LRU_CACHE_LIMIT && self.guilds()[g].messages.len() <= MESSAGES_LRU_CACHE_LIMIT by {
            lemma_assoc_contains(e, g);
            let i = choose|i: int| 0 <= i < e.len() && (#[trigger] e[i]).0 == g;
            lemma_assoc_value(e, i);
            assert(self.guilds@[i].wf());
        }
    }
}


/// `new` is `old` after storing the users `us`, and their member data `ms`
/// in guild `g`, each in turn.
pub open spec fn people_stored(
    old: Cache,
    new: Cache,
    g: Option<GuildId>,
    us: Seq<(UserId, CachedUser)>,
    ms: Seq<(UserId, CachedMember)>,
) -> bool {
    &&& new.wf()
    &&& lru_put_all(old.users(), new.users(), us, USERS_LRU_CACHE_LIMIT as nat)
    &&& match g {
        Some(g) => if old.guilds().contains_key(g) {
            new.guilds() == with_members(old.guilds(), g, new.guilds()[g].members) && lru_put_all(
                old.guilds()[g].members,
                new.guilds()[g].members,
                ms,
                MEMBERS_LRU_CACHE_LIMIT as nat,
            )
        } else {
            new.guilds() == old.guilds()
        },
        None => new.guilds() == old.guilds(),
    }
    &&& new.pending() == old.pending()
}

/// `new` is `old` after storing the message `m`: its author, the users it
/// mentions, their member data, and the message itself in its guild.
pub open spec fn message_stored(old: Cache, new: Cache, m: MessageEvent) -> bool {
    let people = seq![SeenUser { user: m.author, member: m.member }] + m.mentions@;
    exists|mid: Cache|
        people_stored(old, mid, m.guild_id, seen_users(people), seen_members(people)) && match m.guild_id {
            Some(g) => if mid.guilds().contains_key(g) {
                new.guilds() == with_messages(mid.guilds(), g, new.guilds()[g].messages) && lru_put(
                    mid.guilds()[g].messages,
                    new.guilds()[g].messages,
                    m.id,
                    CachedMessage { author_id: m.author.id, kind: m.kind },
                    MESSAGES_LRU_CACHE_LIMIT as nat,
                ) && new.users() == mid.users() && new.pending() == mid.pending() && new.wf()
            } else {
                new.guilds() == mid.guilds() && new.users() == mid.users() && new.pending() == mid.pending()
                    && new.wf()
            },
            None => new == mid,
        }
}

fn build_roles(roles: &Vec<CachedRole>) -> (r: Vec<CachedRole>)
    ensures
        assoc_unique(roles_view(r@)),
        assoc_map(roles_view(r@)) == assoc_map(roles_view(roles@)),
{
    let mut out: Vec<CachedRole> = Vec::new();
    let ghost v = roles_view(roles@);
    let n = roles.len();
    let mut i: usize = 0;
    assert(roles_view(out@) =~= Seq::empty());
    assert(v.subrange(0, 0) =~= Seq::empty());
    while i < n
        invariant
            n == roles@.len(),
            v == roles_view(roles@),
            i <= n,
            assoc_unique(roles_view(out@)),
            assoc_map(roles_view(out@)) == assoc_map(v.subrange(0, i as int)),
        decreases n - i,
    {
        let role = roles[i].duplicate();
        set_role(&mut out, role);
        assert(v.subrange(0, i + 1).drop_last() =~= v.subrange(0, i as int));
        i = i + 1;
    }
    assert(v.subrange(0, n as int) =~= v);
    out
}

fn build_channels(channels: &Vec<CachedChannel>) -> (r: Vec<CachedChannel>)
    ensures
        assoc_unique(channels_view(r@)),
        assoc_map(channels_view(r@)) == assoc_map(channels_view(text_channels(channels@))),
{
    let mut out: Vec<CachedChannel> = Vec::new();
    let n = channels.len();
    let mut i: usize = 0;
    assert(channels_view(out@) =~= Seq::empty());
    proof {
        reveal(Seq::filter);
        assert(channels@.subrange(0, 0) =~= Seq::<CachedChannel>::empty());
        assert(channels_view(text_channels(Seq::<CachedChannel>::empty())) =~= Seq::empty());
    }
    while i < n
        invariant
            n == channels@.len(),
            i <= n,
            assoc_unique(channels_view(out@)),
            assoc_map(channels_view(out@)) == assoc_map(channels_view(text_channels(channels@.subrange(0, i as int)))),
        decreases n - i,
    {
        let ghost p = channels@.subrange(0, i as int);
        let ghost c0 = channels@[i as int];
        proof {
            reveal(Seq::filter);
            assert(channels@.subrange(0, i + 1).drop_last() =~= p);
            assert(channels@.subrange(0, i + 1).last() == c0);
        }
        if is_text_capable(channels[i].kind) {
            let channel = channels[i].duplicate();
            set_channel(&mut out, channel);
            proof {
                let t = text_channels(p);
                assert(text_channels(channels@.subrange(0, i + 1)) == t.push(c0));
                assert(channels_view(t.push(c0)) =~= channels_view(t).push((c0.id, c0)));
                assert(channels_view(t.push(c0)).drop_last() =~= channels_view(t));
            }
        } else {
            proof {
                assert(text_channels(channels@.subrange(0, i + 1)) == text_channels(p));
            }
        }
        i = i + 1;
    }
    assert(channels@.subrange(0, n as int) =~= channels@);
    out
}

/// A user stored with `put_user` is what `get_user` then returns, with no
/// fetch: whatever the cache held and whatever it evicted, the stored user
/// is found under its id.
pub proof fn lemma_user_round_trip(before: Cache, after: Cache, user: CachedUser)
    requires
        lru_put(before.users(), after.users(), user.id, user, USERS_LRU_CACHE_LIMIT as nat),
    ensures
        lru_value(after.users(), user.id) == Some(user),
{
    crate::lru_store::lemma_put_then_get(before.users(), after.users(), user.id, user, USERS_LRU_CACHE_LIMIT as nat);
}

/// A user stored with `put_user` (directly, or through an event that
/// carries them) is what `get_user` returns, with no fetch, as long as fewer
/// than 5000 other users have been stored after it.
pub proof fn lemma_user_found_after_other_puts(
    before: Cache,
    after_put: Cache,
    later: Cache,
    user: CachedUser,
    others: Seq<(UserId, CachedUser)>,
)
    requires
        before.wf(),
        lru_put(before.users(), after_put.users(), user.id, user, USERS_LRU_CACHE_LIMIT as nat),
        lru_put_all(after_put.users(), later.users(), others, USERS_LRU_CACHE_LIMIT as nat),
        forall|i: int| 0 <= i < others.len() ==> (#[trigger] others[i]).0 != user.id,
        others.len() < USERS_LRU_CACHE_LIMIT,
    ensures
        lru_value(later.users(), user.id) == Some(user),
{
    let b = before.users();
    let a = after_put.users();
    crate::lru_store::lemma_lru_bounded(b, a, user.id, user, USERS_LRU_CACHE_LIMIT as nat);
    match lru_index(b, user.id) {
        Some(i) => crate::lru_store::lemma_index_front(user.id, user, b.remove(i)),
        None => {
            if b.len() < USERS_LRU_CACHE_LIMIT || b.len() == 0 {
                crate::lru_store::lemma_index_front(user.id, user, b);
            } else {
                crate::lru_store::lemma_index_front(user.id, user, b.drop_last());
            }
        },
    }
    assert(a[0].1 == user);
    crate::lru_store::lemma_survives_other_puts(a, later.users(), others, USERS_LRU_CACHE_LIMIT as nat, user.id, 0);
}

} // verus!

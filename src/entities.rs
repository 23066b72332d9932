//! What the cache keeps of each entity, as plain values.

use vstd::prelude::*;

use crate::ids::{ChannelId, GuildId, RoleId, UserId};

verus! {

#[derive(Debug, Clone, PartialEq, Eq)]
pub struct CachedUser {
    pub id: UserId,
    pub name: String,
    pub discriminator: u16,
    /// The avatar's hash, as text.
    pub avatar: Option<String>,
    pub bot: bool,
}

#[derive(Debug, Clone, PartialEq, Eq)]
pub struct CachedGuild {
    pub id: GuildId,
    pub name: String,
    pub icon: Option<String>,
    pub roles: Vec<RoleId>,
    pub owner_id: UserId,
}

#[derive(Debug, Clone, PartialEq, Eq)]
pub struct CachedRole {
    pub id: RoleId,
    pub name: String,
    pub color: u32,
    pub position: i64,
    pub permissions: u64,
}

#[derive(Debug, Clone, PartialEq, Eq)]
pub struct CachedMember {
    pub nick: Option<String>,
    pub avatar: Option<String>,
    pub roles: Vec<RoleId>,
}

#[derive(Debug, Clone, Copy, PartialEq, Eq, Structural)]
pub enum ChannelKind {
    GuildText,
    GuildAnnouncement,
    Thread,
    /// Voice, stage, category, forum and other channels without a message stream.
    Other,
}

/// Channels whose messages the cache and the graphs follow.
pub open spec fn text_capable(kind: ChannelKind) -> bool {
    kind != ChannelKind::Other
}

pub fn is_text_capable(kind: ChannelKind) -> (r: bool)
    ensures
        r == text_capable(kind),
{
    match kind {
        ChannelKind::Other => false,
        _ => true,
    }
}

#[derive(Debug, Clone, PartialEq, Eq)]
pub struct CachedChannel {
    pub id: ChannelId,
    pub name: String,
    pub kind: ChannelKind,
}

#[derive(Debug, Clone, Copy, PartialEq, Eq, Structural)]
pub enum MessageKind {
    Regular,
    Reply,
    Other,
}

#[derive(Debug, Clone, Copy, PartialEq, Eq, Structural)]
pub struct CachedMessage {
    pub author_id: UserId,
    pub kind: MessageKind,
}

impl CachedMember {
    /// The same member data, the role list compared by its contents.
    pub open spec fn same_as(&self, other: &CachedMember) -> bool {
        self.nick == other.nick && self.avatar == other.avatar && self.roles@ == other.roles@
    }

    pub fn duplicate(&self) -> (r: CachedMember)
        ensures
            r.same_as(self),
    {
        let nick = match &self.nick {
            Some(n) => Some(n.clone()),
            None => None,
        };
        let avatar = match &self.avatar {
            Some(a) => Some(a.clone()),
            None => None,
        };
        CachedMember { nick, avatar, roles: self.roles.clone() }
    }
}

impl CachedGuild {
    /// The same guild data, the role list compared by its contents.
    pub open spec fn same_as(&self, other: &CachedGuild) -> bool {
        self.id == other.id && self.name == other.name && self.icon == other.icon && self.roles@
            == other.roles@ && self.owner_id == other.owner_id
    }

    pub fn duplicate(&self) -> (r: CachedGuild)
        ensures
            r.same_as(self),
    {
        let icon = match &self.icon {
            Some(a) => Some(a.clone()),
            None => None,
        };
        CachedGuild {
            id: self.id,
            name: self.name.clone(),
            icon,
            roles: self.roles.clone(),
            owner_id: self.owner_id,
        }
    }
}

impl CachedUser {
    pub fn duplicate(&self) -> (r: CachedUser)
        ensures
            r == *self,
    {
        let avatar = match &self.avatar {
            Some(a) => Some(a.clone()),
            None => None,
        };
        CachedUser {
            id: self.id,
            name: self.name.clone(),
            discriminator: self.discriminator,
            avatar,
            bot: self.bot,
        }
    }
}

impl CachedRole {
    pub fn duplicate(&self) -> (r: CachedRole)
        ensures
            r == *self,
    {
        CachedRole {
            id: self.id,
            name: self.name.clone(),
            color: self.color,
            position: self.position,
            permissions: self.permissions,
        }
    }
}

impl CachedChannel {
    pub fn duplicate(&self) -> (r: CachedChannel)
        ensures
            r == *self,
    {
        CachedChannel { id: self.id, name: self.name.clone(), kind: self.kind }
    }
}

} // verus!

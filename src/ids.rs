//! Identifiers of the chat platform's entities: non-zero 64-bit snowflakes.

use vstd::prelude::*;

verus! {

pub type UserId = u64;

pub type GuildId = u64;

pub type ChannelId = u64;

pub type MessageId = u64;

pub type RoleId = u64;

} // verus!

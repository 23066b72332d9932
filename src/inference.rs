//! The inference engine: turns each interaction into weighted relationship
//! signals, using a short per-channel history of who spoke when.

use vstd::prelude::*;

use crate::entities::{CachedMessage, ChannelKind, MessageKind};
use crate::ids::{ChannelId, GuildId, UserId};
use crate::mention::{direct_mention_of, parse_direct_mention};
use crate::text::{decimal_text, push_decimal};

verus! {

/// Strengths are fixed-point: one unit is a ten-thousandth of a whole.
pub type RelationshipStrength = u64;

/// The number of strength units in one whole.
pub const STRENGTH_SCALE: u64 = 10000;

/// Decay applied to a channel's graph on each interaction in it (0.02).
pub const RELATIONSHIP_DECAY: u64 = 200;

/// Decay applied to every channel of a guild on each human message (0.0002).
pub const RELATIONSHIP_DECAY_GLOBAL: u64 = 2;

/// Number of interactions kept per channel.
pub const MESSAGE_HISTORY_COUNT: usize = 5;

/// A reply within this many seconds of the last message counts as adjacent.
pub const ADJACENCY_REPLY_SECS: u64 = 120;

/// The gap before the last message must exceed this many seconds.
pub const ADJACENCY_GAP_SECS: u64 = 600;

#[derive(Debug, Clone, Copy, PartialEq, Eq, Structural)]
pub enum InteractionType {
    Message,
    Reaction,
}

/// One message or reaction, with its users resolved. `when` is a reading of a
/// monotonic clock in milliseconds.
#[derive(Debug)]
pub struct Interaction {
    pub what: InteractionType,
    pub when: u64,
    pub guild: GuildId,
    pub channel: ChannelId,
    pub source: UserId,
    pub source_is_bot: bool,
    pub target: Option<UserId>,
    pub other_targets: Vec<UserId>,
}

#[derive(Debug, Clone, Copy, PartialEq, Eq, Structural)]
pub enum RelationshipChangeReason {
    Reaction,
    MessageDirectMention,
    MessageIndirectMention,
    MessageAdjacency,
    MessageBinarySequence,
}

pub open spec fn strength_of(reason: RelationshipChangeReason) -> u64 {
    match reason {
        RelationshipChangeReason::Reaction => 1000,
        RelationshipChangeReason::MessageDirectMention => 20000,
        RelationshipChangeReason::MessageIndirectMention => 10000,
        RelationshipChangeReason::MessageAdjacency => 5000,
        RelationshipChangeReason::MessageBinarySequence => 5000,
    }
}

pub open spec fn code_of(reason: RelationshipChangeReason) -> u8 {
    match reason {
        RelationshipChangeReason::Reaction => 1,
        RelationshipChangeReason::MessageDirectMention => 2,
        RelationshipChangeReason::MessageIndirectMention => 3,
        RelationshipChangeReason::MessageAdjacency => 4,
        RelationshipChangeReason::MessageBinarySequence => 5,
    }
}

impl RelationshipChangeReason {
    /// The weight this reason adds to an edge, in strength units.
    pub fn get_change_strength(&self) -> (r: RelationshipStrength)
        ensures
            r == strength_of(*self),
            r > 0,
    {
        match self {
            RelationshipChangeReason::Reaction => 1000,
            RelationshipChangeReason::MessageDirectMention => 20000,
            RelationshipChangeReason::MessageIndirectMention => 10000,
            RelationshipChangeReason::MessageAdjacency => 5000,
            RelationshipChangeReason::MessageBinarySequence => 5000,
        }
    }

    /// The stable number under which the reason is recorded.
    pub fn code(&self) -> (r: u8)
        ensures
            r == code_of(*self),
    {
        match self {
            RelationshipChangeReason::Reaction => 1,
            RelationshipChangeReason::MessageDirectMention => 2,
            RelationshipChangeReason::MessageIndirectMention => 3,
            RelationshipChangeReason::MessageAdjacency => 4,
            RelationshipChangeReason::MessageBinarySequence => 5,
        }
    }
}

#[derive(Debug, Clone, Copy, PartialEq, Eq, Structural)]
pub struct RelationshipChange {
    pub source: UserId,
    pub target: UserId,
    pub reason: RelationshipChangeReason,
}

/// A message as the extractor sees it.
pub struct IncomingMessage {
    pub guild_id: Option<GuildId>,
    pub channel_id: ChannelId,
    pub author_id: UserId,
    pub author_is_bot: bool,
    pub content: String,
    /// The users the message mentions, in order.
    pub mentions: Vec<UserId>,
}

/// A reaction as the extractor sees it; `member_is_bot` is present when the
/// event carries the reacting member.
pub struct IncomingReaction {
    pub guild_id: Option<GuildId>,
    pub channel_id: ChannelId,
    pub user_id: UserId,
    pub member_is_bot: Option<bool>,
}

#[derive(Debug, Clone, Copy, PartialEq, Eq, Structural)]
pub enum InteractionError {
    /// The event did not happen in a guild.
    NotInGuild,
    /// The reaction event came without its member.
    MissingMember,
}

/// The primary target of a message: a direct mention at its start, else the
/// author of the message it replies to.
pub open spec fn message_target(content: Seq<char>, replied_author: Option<UserId>) -> Option<UserId> {
    match direct_mention_of(content) {
        Some(u) => Some(u),
        None => replied_author,
    }
}

/// The mentioned users other than the primary target.
pub open spec fn secondary_targets(mentions: Seq<UserId>, target: Option<UserId>) -> Seq<UserId> {
    mentions.filter(|u: UserId| Some(u) != target)
}

/// Whether the interaction layer follows a message of this kind from this
/// author: regular messages and replies, not our own.
pub open spec fn tracked_message(kind: MessageKind, author: UserId, our_id: UserId) -> bool {
    (kind == MessageKind::Regular || kind == MessageKind::Reply) && author != our_id
}

pub fn is_tracked_message(kind: MessageKind, author: UserId, our_id: UserId) -> (r: bool)
    ensures
        r == tracked_message(kind, author, our_id),
{
    (kind == MessageKind::Regular || kind == MessageKind::Reply) && author != our_id
}

/// Whether the interaction layer follows a reaction by this user: any but
/// our own.
pub fn is_tracked_reaction(user_id: UserId, our_id: UserId) -> (r: bool)
    ensures
        r == (user_id != our_id),
{
    user_id != our_id
}

/// Whether a newly created channel of this kind gets a relationship graph
/// loaded: guild text channels do.
pub fn loads_graph_on_creation(kind: ChannelKind) -> (r: bool)
    ensures
        r == (kind == ChannelKind::GuildText),
{
    kind == ChannelKind::GuildText
}

impl Interaction {
    /// The interaction a guild message makes, at time `when`.
    pub fn new_from_message(
        message: &IncomingMessage,
        referenced_message: Option<&CachedMessage>,
        when: u64,
    ) -> (r: Result<Interaction, InteractionError>)
        ensures
            match message.guild_id {
                None => r == Err::<Interaction, InteractionError>(InteractionError::NotInGuild),
                Some(g) => r matches Ok(i) && i.what == InteractionType::Message && i.when == when
                    && i.guild == g && i.channel == message.channel_id && i.source == message.author_id
                    && i.source_is_bot == message.author_is_bot && i.target == message_target(
                    message.content@,
                    match referenced_message {
                        Some(m) => Some(m.author_id),
                        None => None,
                    },
                ) && i.other_targets@ == secondary_targets(message.mentions@, i.target),
            },
    {
        let guild = match message.guild_id {
            Some(g) => g,
            None => {
                return Err(InteractionError::NotInGuild);
            },
        };
        let target = match parse_direct_mention(message.content.as_str()) {
            Some(u) => Some(u),
            None => match referenced_message {
                Some(m) => Some(m.author_id),
                None => None,
            },
        };
        let mut others: Vec<UserId> = Vec::new();
        let n = message.mentions.len();
        let mut k: usize = 0;
        proof {
            reveal(Seq::filter);
            assert(message.mentions@.subrange(0, 0) =~= Seq::<UserId>::empty());
        }
        while k < n
            invariant
                n == message.mentions@.len(),
                k <= n,
                others@ == secondary_targets(message.mentions@.subrange(0, k as int), target),
            decreases n - k,
        {
            let u = message.mentions[k];
            proof {
                reveal(Seq::filter);
                assert(message.mentions@.subrange(0, k + 1).drop_last() =~= message.mentions@.subrange(0, k as int));
            }
            let keep = match target {
                Some(t) => t != u,
                None => true,
            };
            if keep {
                others.push(u);
            }
            k = k + 1;
        }
        assert(message.mentions@.subrange(0, n as int) =~= message.mentions@);
        Ok(
            Interaction {
                what: InteractionType::Message,
                when,
                guild,
                channel: message.channel_id,
                source: message.author_id,
                source_is_bot: message.author_is_bot,
                target,
                other_targets: others,
            },
        )
    }

    /// The interaction a reaction makes, at time `when`: its one target is
    /// the author of the message reacted to.
    pub fn new_from_reaction(
        reaction: &IncomingReaction,
        target_message: &CachedMessage,
        when: u64,
    ) -> (r: Result<Interaction, InteractionError>)
        ensures
            match (reaction.guild_id, reaction.member_is_bot) {
                (None, _) => r == Err::<Interaction, InteractionError>(InteractionError::NotInGuild),
                (Some(_), None) => r == Err::<Interaction, InteractionError>(InteractionError::MissingMember),
                (Some(g), Some(bot)) => r matches Ok(i) && i.what == InteractionType::Reaction && i.when
                    == when && i.guild == g && i.channel == reaction.channel_id && i.source
                    == reaction.user_id && i.source_is_bot == bot && i.target == Some(
                    target_message.author_id,
                ) && i.other_targets@.len() == 0,
            },
    {
        let guild = match reaction.guild_id {
            Some(g) => g,
            None => {
                return Err(InteractionError::NotInGuild);
            },
        };
        let bot = match reaction.member_is_bot {
            Some(b) => b,
            None => {
                return Err(InteractionError::MissingMember);
            },
        };
        Ok(
            Interaction {
                what: InteractionType::Reaction,
                when,
                guild,
                channel: reaction.channel_id,
                source: reaction.user_id,
                source_is_bot: bot,
                target: Some(target_message.author_id),
                other_targets: Vec::new(),
            },
        )
    }
}

pub open spec fn reason_name(reason: RelationshipChangeReason) -> Seq<char> {
    match reason {
        RelationshipChangeReason::Reaction => "Reaction"@,
        RelationshipChangeReason::MessageDirectMention => "MessageDirectMention"@,
        RelationshipChangeReason::MessageIndirectMention => "MessageIndirectMention"@,
        RelationshipChangeReason::MessageAdjacency => "MessageAdjacency"@,
        RelationshipChangeReason::MessageBinarySequence => "MessageBinarySequence"@,
    }
}

impl RelationshipChange {
    /// One line for the debug log: `source --> target [Reason]`.
    pub fn describe(&self) -> (r: String)
        ensures
            r@ == decimal_text(self.source as nat) + " --> "@ + decimal_text(self.target as nat) + " ["@
                + reason_name(self.reason) + "]"@,
    {
        let mut out = String::new();
        push_decimal(&mut out, self.source);
        out.append(" --> ");
        push_decimal(&mut out, self.target);
        out.append(" [");
        match self.reason {
            RelationshipChangeReason::Reaction => out.append("Reaction"),
            RelationshipChangeReason::MessageDirectMention => out.append("MessageDirectMention"),
            RelationshipChangeReason::MessageIndirectMention => out.append("MessageIndirectMention"),
            RelationshipChangeReason::MessageAdjacency => out.append("MessageAdjacency"),
            RelationshipChangeReason::MessageBinarySequence => out.append("MessageBinarySequence"),
        }
        out.append("]");
        out
    }
}

/// What the history keeps of an interaction: who spoke, and when.
#[derive(Debug, Clone, Copy, PartialEq, Eq, Structural)]
pub struct HistoryEntry {
    pub source: UserId,
    pub when: u64,
}

/// Whole seconds from `earlier` to `later`, zero if `later` is not later.
pub open spec fn elapsed_secs(later: u64, earlier: u64) -> u64 {
    if later >= earlier {
        ((later - earlier) / 1000) as u64
    } else {
        0
    }
}

/// The index of the first entry at or after `start` whose source is not `who`.
pub open spec fn first_other_source(h: Seq<HistoryEntry>, start: int, who: UserId) -> Option<int>
    decreases h.len() - start,
{
    if start < 0 || start >= h.len() {
        None
    } else if h[start].source != who {
        Some(start)
    } else {
        first_other_source(h, start + 1, who)
    }
}

pub open spec fn direct_changes(i: Interaction) -> Seq<RelationshipChange> {
    match i.target {
        Some(t) => seq![
            RelationshipChange {
                source: i.source,
                target: t,
                reason: if i.what == InteractionType::Reaction {
                    RelationshipChangeReason::Reaction
                } else {
                    RelationshipChangeReason::MessageDirectMention
                },
            },
        ],
        None => seq![],
    }
}

pub open spec fn indirect_change(source: UserId, target: UserId) -> RelationshipChange {
    RelationshipChange {
        source,
        target,
        reason: RelationshipChangeReason::MessageIndirectMention,
    }
}

pub open spec fn indirect_changes(i: Interaction) -> Seq<RelationshipChange> {
    i.other_targets@.map_values(|t: UserId| indirect_change(i.source, t))
}

/// A quick reply to the last speaker, who had spoken after a long gap.
pub open spec fn adjacency_changes(h: Seq<HistoryEntry>, i: Interaction) -> Seq<RelationshipChange> {
    if h.len() > 0 && h[0].source != i.source && elapsed_secs(i.when, h[0].when)
        < ADJACENCY_REPLY_SECS {
        match first_other_source(h, 1, h[0].source) {
            Some(j) => if elapsed_secs(h[0].when, h[j].when) > ADJACENCY_GAP_SECS {
                seq![
                    RelationshipChange {
                        source: i.source,
                        target: h[0].source,
                        reason: RelationshipChangeReason::MessageAdjacency,
                    },
                ]
            } else {
                seq![]
            },
            None => seq![],
        }
    } else {
        seq![]
    }
}

/// The history after a message: the message in front, at most five entries.
pub open spec fn pushed_history(h: Seq<HistoryEntry>, i: Interaction) -> Seq<HistoryEntry> {
    let p = seq![HistoryEntry { source: i.source, when: i.when }] + h;
    if p.len() > MESSAGE_HISTORY_COUNT {
        p.subrange(0, MESSAGE_HISTORY_COUNT as int)
    } else {
        p
    }
}

/// Every entry of `h` is from `a` or from `b`, and both occur: the window
/// holds exactly the two distinct speakers `a` and `b`.
pub open spec fn exactly_two_speakers(h: Seq<HistoryEntry>, a: UserId, b: UserId) -> bool {
    &&& a != b
    &&& forall|k: int| 0 <= k < h.len() ==> (#[trigger] h[k]).source == a || h[k].source == b
    &&& exists|k: int| 0 <= k < h.len() && (#[trigger] h[k]).source == a
    &&& exists|k: int| 0 <= k < h.len() && (#[trigger] h[k]).source == b
}

/// A full window shared by exactly two speakers, one of them the source.
pub open spec fn binary_changes(h2: Seq<HistoryEntry>, i: Interaction) -> Seq<RelationshipChange> {
    if h2.len() >= MESSAGE_HISTORY_COUNT && exists|b: UserId|
        exactly_two_speakers(h2, i.source, b) {
        let b = choose|b: UserId| exactly_two_speakers(h2, i.source, b);
        seq![
            RelationshipChange {
                source: i.source,
                target: b,
                reason: RelationshipChangeReason::MessageBinarySequence,
            },
        ]
    } else {
        seq![]
    }
}

/// All the changes inferred from `i` with history `h`, in order.
pub open spec fn inferred_changes(h: Seq<HistoryEntry>, i: Interaction) -> Seq<RelationshipChange> {
    if i.what == InteractionType::Message {
        direct_changes(i) + indirect_changes(i) + adjacency_changes(h, i) + binary_changes(
            pushed_history(h, i),
            i,
        )
    } else {
        direct_changes(i)
    }
}

/// The history after `i`: messages enter it, reactions do not.
pub open spec fn next_history(h: Seq<HistoryEntry>, i: Interaction) -> Seq<HistoryEntry> {
    if i.what == InteractionType::Message {
        pushed_history(h, i)
    } else {
        h
    }
}

/// Per-channel inference state: the latest interactions, newest first.
#[derive(Debug)]
pub struct InferenceState {
    history: Vec<HistoryEntry>,
}

impl InferenceState {
    pub closed spec fn history(&self) -> Seq<HistoryEntry> {
        self.history@
    }

    pub open spec fn wf(&self) -> bool {
        self.history().len() <= MESSAGE_HISTORY_COUNT
    }

    pub fn new() -> (r: Self)
        ensures
            r.wf(),
            r.history() == Seq::<HistoryEntry>::empty(),
    {
        InferenceState { history: Vec::new() }
    }

    /// The changes that `interaction` implies are appended to `changes`,
    /// and a message enters the history.
    pub fn infer(&mut self, changes: &mut Vec<RelationshipChange>, interaction: &Interaction)
        requires
            old(self).wf(),
        ensures
            final(self).wf(),
            final(self).history() == next_history(old(self).history(), *interaction),
            final(changes)@ == old(changes)@ + inferred_changes(
                old(self).history(),
                *interaction,
            ),
    {
        let ghost h0 = self.history@;
        let ghost c0 = changes@;
        let source = interaction.source;

        if let Some(target) = interaction.target {
            let reason = match interaction.what {
                InteractionType::Reaction => RelationshipChangeReason::Reaction,
                InteractionType::Message => RelationshipChangeReason::MessageDirectMention,
            };
            changes.push(RelationshipChange { source, target, reason });
        }
        assert(changes@ == c0 + direct_changes(*interaction));

        if interaction.what != InteractionType::Message {
            return;
        }

        let ghost c1 = changes@;
        let n = interaction.other_targets.len();
        let mut k: usize = 0;
        while k < n
            invariant
                n == interaction.other_targets@.len(),
                k <= n,
                changes@ == c1 + interaction.other_targets@.subrange(0, k as int).map_values(
                    |t: UserId| indirect_change(source, t),
                ),
                source == interaction.source,
            decreases n - k,
        {
            changes.push(
                RelationshipChange {
                    source,
                    target: interaction.other_targets[k],
                    reason: RelationshipChangeReason::MessageIndirectMention,
                },
            );
            k = k + 1;
            assert(interaction.other_targets@.subrange(0, k as int) =~= interaction.other_targets@.subrange(
                0,
                k - 1,
            ).push(interaction.other_targets@[k - 1]));
        }
        assert(interaction.other_targets@.subrange(0, n as int) =~= interaction.other_targets@);
        let ghost c2 = changes@;
        assert(c2 == c0 + direct_changes(*interaction) + indirect_changes(*interaction));

        self.push_adjacency(changes, interaction);
        let ghost c3 = changes@;
        assert(c3 == c2 + adjacency_changes(h0, *interaction));

        self.history.insert(0, HistoryEntry { source, when: interaction.when });
        if self.history.len() > MESSAGE_HISTORY_COUNT {
            self.history.truncate(MESSAGE_HISTORY_COUNT);
        }
        assert(self.history@ =~= pushed_history(h0, *interaction));

        self.push_binary_sequence(changes, interaction);
        assert(changes@ =~= c0 + inferred_changes(h0, *interaction));
    }

    /// Index of the first entry from `start` on whose source is not `who`.
    fn find_other_source(&self, start: usize, who: UserId) -> (r: Option<usize>)
        ensures
            match r {
                Some(j) => first_other_source(self.history(), start as int, who) == Some(j as int),
                None => first_other_source(self.history(), start as int, who) is None,
            },
            r matches Some(j) ==> start <= j < self.history@.len() && self.history@[j as int].source
                != who,
    {
        let n = self.history.len();
        let mut j: usize = start;
        while j < n
            invariant
                n == self.history@.len(),
                start <= j,
                j <= n || start >= n,
                first_other_source(self.history@, start as int, who) == first_other_source(
                    self.history@,
                    j as int,
                    who,
                ),
            decreases n - j,
        {
            if self.history[j].source != who {
                return Some(j);
            }
            j = j + 1;
        }
        None
    }

    fn push_adjacency(&self, changes: &mut Vec<RelationshipChange>, interaction: &Interaction)
        ensures
            final(changes)@ == old(changes)@ + adjacency_changes(self.history(), *interaction),
    {
        let ghost c0 = changes@;
        let ghost h = self.history@;
        if self.history.len() == 0 {
            assert(changes@ =~= c0 + adjacency_changes(h, *interaction));
            return;
        }
        let last = self.history[0];
        if last.source == interaction.source {
            assert(changes@ =~= c0 + adjacency_changes(h, *interaction));
            return;
        }
        let reply_secs = if interaction.when >= last.when {
            (interaction.when - last.when) / 1000
        } else {
            0
        };
        if reply_secs >= ADJACENCY_REPLY_SECS {
            assert(changes@ =~= c0 + adjacency_changes(h, *interaction));
            return;
        }
        match self.find_other_source(1, last.source) {
            Some(j) => {
                let previous = self.history[j];
                let gap_secs = if last.when >= previous.when {
                    (last.when - previous.when) / 1000
                } else {
                    0
                };
                if gap_secs > ADJACENCY_GAP_SECS {
                    changes.push(
                        RelationshipChange {
                            source: interaction.source,
                            target: last.source,
                            reason: RelationshipChangeReason::MessageAdjacency,
                        },
                    );
                }
                assert(changes@ =~= c0 + adjacency_changes(h, *interaction));
            },
            None => {
                assert(changes@ =~= c0 + adjacency_changes(h, *interaction));
            },
        }
    }

    fn push_binary_sequence(&self, changes: &mut Vec<RelationshipChange>, interaction: &Interaction)
        requires
            self.history().len() > 0,
            self.history()[0].source == interaction.source,
        ensures
            final(changes)@ == old(changes)@ + binary_changes(self.history(), *interaction),
    {
        let ghost h = self.history@;
        let ghost c0 = changes@;
        let source = interaction.source;
        if self.history.len() < MESSAGE_HISTORY_COUNT {
            assert(changes@ =~= c0 + binary_changes(h, *interaction));
            return;
        }
        let (jx, other) = match self.find_other_source(0, source) {
            Some(jx) => (jx, self.history[jx].source),
            None => {
                assert forall|b: UserId| !exactly_two_speakers(h, source, b) by {
                    lemma_no_other_source(h, 0, source);
                    if exactly_two_speakers(h, source, b) {
                        let k = choose|k: int| 0 <= k < h.len() && (#[trigger] h[k]).source == b;
                        assert(h[k].source != source);
                    }
                }
                assert(changes@ =~= c0 + binary_changes(h, *interaction));
                return;
            },
        };
        let ghost j = jx as int;
        let n = self.history.len();
        let mut k: usize = 0;
        while k < n
            invariant
                n == h.len(),
                h == self.history@,
                k <= n,
                0 <= j < n,
                n >= MESSAGE_HISTORY_COUNT,
                changes@ == c0,
                source == interaction.source,
                h[j].source == other,
                other != source,
                forall|m: int| 0 <= m < k ==> (#[trigger] h[m]).source == source || h[m].source
                    == other,
            decreases n - k,
        {
            let s = self.history[k].source;
            if s != source && s != other {
                assert(!exactly_two_speakers(h, source, other));
                assert forall|b: UserId| !exactly_two_speakers(h, source, b) by {
                    if exactly_two_speakers(h, source, b) {
                        assert(h[j as int].source == b);
                        assert(h[k as int].source == source || h[k as int].source == b);
                    }
                }
                assert(changes@ =~= c0 + binary_changes(h, *interaction));
                return;
            }
            k = k + 1;
        }
        assert(h[0].source == source || h[0].source == other);
        assert(exactly_two_speakers(h, source, other)) by {
            assert(0 <= j < h.len() && h[j].source == other);
            assert(h[0].source == source);
        }
        assert forall|b: UserId| exactly_two_speakers(h, source, b) implies b == other by {
            assert(h[j].source == source || h[j].source == b);
        }
        changes.push(
            RelationshipChange {
                source,
                target: other,
                reason: RelationshipChangeReason::MessageBinarySequence,
            },
        );
        assert(changes@ =~= c0 + binary_changes(h, *interaction));
    }
}

proof fn lemma_first_other_source_spec(h: Seq<HistoryEntry>, start: int, who: UserId)
    requires
        0 <= start,
    ensures
        match first_other_source(h, start, who) {
            Some(j) => start <= j < h.len() && h[j].source != who && forall|m: int|
                start <= m < j ==> (#[trigger] h[m]).source == who,
            None => forall|m: int| start <= m < h.len() ==> (#[trigger] h[m]).source == who,
        },
    decreases h.len() - start,
{
    if start < h.len() && h[start].source == who {
        lemma_first_other_source_spec(h, start + 1, who);
    }
}

proof fn lemma_no_other_source(h: Seq<HistoryEntry>, start: int, who: UserId)
    requires
        0 <= start,
        first_other_source(h, start, who) is None,
    ensures
        forall|m: int| start <= m < h.len() ==> (#[trigger] h[m]).source == who,
{
    lemma_first_other_source_spec(h, start, who);
}

pub open spec fn alternating_message(i: Interaction, who: UserId) -> bool {
    i.what == InteractionType::Message && i.source == who
}

/// Five messages in a fresh channel, alternating between two users `a` and
/// `b` (`a` first), give exactly one binary-sequence change: on the fifth,
/// from `a` to `b`.
pub proof fn lemma_alternating_pair(
    a: UserId,
    b: UserId,
    i1: Interaction,
    i2: Interaction,
    i3: Interaction,
    i4: Interaction,
    i5: Interaction,
)
    requires
        a != b,
        alternating_message(i1, a),
        alternating_message(i2, b),
        alternating_message(i3, a),
        alternating_message(i4, b),
        alternating_message(i5, a),
    ensures
        ({
            let h0 = Seq::<HistoryEntry>::empty();
            let h1 = next_history(h0, i1);
            let h2 = next_history(h1, i2);
            let h3 = next_history(h2, i3);
            let h4 = next_history(h3, i4);
            &&& binary_changes(pushed_history(h0, i1), i1) == Seq::<RelationshipChange>::empty()
            &&& binary_changes(pushed_history(h1, i2), i2) == Seq::<RelationshipChange>::empty()
            &&& binary_changes(pushed_history(h2, i3), i3) == Seq::<RelationshipChange>::empty()
            &&& binary_changes(pushed_history(h3, i4), i4) == Seq::<RelationshipChange>::empty()
            &&& binary_changes(pushed_history(h4, i5), i5) == seq![
                RelationshipChange {
                    source: a,
                    target: b,
                    reason: RelationshipChangeReason::MessageBinarySequence,
                },
            ]
        }),
{
    let h0 = Seq::<HistoryEntry>::empty();
    let h1 = next_history(h0, i1);
    let h2 = next_history(h1, i2);
    let h3 = next_history(h2, i3);
    let h4 = next_history(h3, i4);
    let h5 = pushed_history(h4, i5);
    assert(h1.len() == 1);
    assert(h2.len() == 2);
    assert(h3.len() == 3);
    assert(h4.len() == 4);
    assert(h5.len() == 5);
    assert(h5[0].source == a);
    assert(h5[1].source == b);
    assert(h5[2].source == a);
    assert(h5[3].source == b);
    assert(h5[4].source == a);
    assert(exactly_two_speakers(h5, a, b)) by {
        assert(h5[0].source == a);
        assert(h5[1].source == b);
    }
    assert forall|x: UserId| exactly_two_speakers(h5, a, x) implies x == b by {
        assert(h5[1].source == a || h5[1].source == x);
    }
}

pub open spec fn plain_message(i: Interaction, who: UserId, when: u64, target: Option<UserId>) -> bool {
    &&& i.what == InteractionType::Message
    &&& i.source == who
    &&& i.when == when
    &&& i.target == target
    &&& i.other_targets@.len() == 0
}

/// In a fresh channel, `c` speaks, then 700 s later `a` mentions `b`, then
/// 90 s after that `b` answers without a mention: the mention gives exactly
/// a direct-mention change from `a` to `b`, and the answer exactly an
/// adjacency change from `b` to `a`.
pub proof fn lemma_quick_answer_after_gap(
    a: UserId,
    b: UserId,
    c: UserId,
    t: u64,
    i0: Interaction,
    i1: Interaction,
    i2: Interaction,
)
    requires
        a != b,
        a != c,
        t + 790000 <= u64::MAX,
        plain_message(i0, c, t, None),
        plain_message(i1, a, (t + 700000) as u64, Some(b)),
        plain_message(i2, b, (t + 790000) as u64, None),
    ensures
        ({
            let h0 = Seq::<HistoryEntry>::empty();
            let h1 = next_history(h0, i0);
            let h2 = next_history(h1, i1);
            &&& inferred_changes(h0, i0) == Seq::<RelationshipChange>::empty()
            &&& inferred_changes(h1, i1) == seq![
                RelationshipChange { source: a, target: b, reason: RelationshipChangeReason::MessageDirectMention },
            ]
            &&& inferred_changes(h2, i2) == seq![
                RelationshipChange { source: b, target: a, reason: RelationshipChangeReason::MessageAdjacency },
            ]
        }),
{
    let h0 = Seq::<HistoryEntry>::empty();
    let h1 = next_history(h0, i0);
    let h2 = next_history(h1, i1);
    assert(i0.other_targets@ =~= Seq::<UserId>::empty());
    assert(i1.other_targets@ =~= Seq::<UserId>::empty());
    assert(i2.other_targets@ =~= Seq::<UserId>::empty());
    assert(indirect_changes(i0) =~= Seq::<RelationshipChange>::empty());
    assert(indirect_changes(i1) =~= Seq::<RelationshipChange>::empty());
    assert(indirect_changes(i2) =~= Seq::<RelationshipChange>::empty());
    assert(h1.len() == 1 && h1[0].source == c && h1[0].when == t);
    assert(h2.len() == 2 && h2[0].source == a && h2[1].source == c);
    assert(elapsed_secs(i1.when, h1[0].when) == 700);
    assert(elapsed_secs(i2.when, h2[0].when) == 90);
    assert(first_other_source(h2, 1, a) == Some(1int));
    assert(elapsed_secs(h2[0].when, h2[1].when) == 700);
    assert(inferred_changes(h0, i0) =~= Seq::<RelationshipChange>::empty());
    assert(inferred_changes(h1, i1) =~= seq![
        RelationshipChange { source: a, target: b, reason: RelationshipChangeReason::MessageDirectMention },
    ]);
    assert(inferred_changes(h2, i2) =~= seq![
        RelationshipChange { source: b, target: a, reason: RelationshipChangeReason::MessageAdjacency },
    ]);
}

} // verus!

//! The relationship graph store: one graph per (guild, channel), decayed and
//! strengthened as interactions arrive, and merged per guild on demand.

use vstd::prelude::*;

use crate::assoc::{
    assoc_map, assoc_unique, lemma_assoc_contains, lemma_assoc_push, lemma_assoc_remove,
    lemma_assoc_update, lemma_assoc_value,
};
use crate::graph::{
    decayed, in_some, lemma_changes_only_add_named, lemma_merge_all_closed_form, lemma_total_remove, merge_all,
    total_strength, with_changes, EdgeKey, UserRelationshipGraphMap,
};
use crate::ids::{ChannelId, GuildId};
use crate::inference::{
    inferred_changes, next_history, HistoryEntry, InferenceState, Interaction, InteractionType,
    RelationshipChange, RELATIONSHIP_DECAY, RELATIONSHIP_DECAY_GLOBAL,
};

verus! {

pub type GraphView = Map<EdgeKey, u64>;

/// The graphs of one guild's channels, in the order they were created.
pub type ChannelGraphs = Seq<(ChannelId, GraphView)>;

#[derive(Debug)]
pub struct ChannelGraph {
    pub channel: ChannelId,
    pub graph: UserRelationshipGraphMap,
}

#[derive(Debug)]
pub struct GuildGraphs {
    pub guild: GuildId,
    pub channels: Vec<ChannelGraph>,
}

#[derive(Debug)]
struct ChannelState {
    guild: GuildId,
    channel: ChannelId,
    state: InferenceState,
}

pub open spec fn channels_view(cs: Seq<ChannelGraph>) -> ChannelGraphs {
    cs.map_values(|c: ChannelGraph| (c.channel, c.graph@))
}

pub open spec fn channels_wf(cs: Seq<ChannelGraph>) -> bool {
    &&& assoc_unique(channels_view(cs))
    &&& forall|i: int| 0 <= i < cs.len() ==> (#[trigger] cs[i]).graph.wf()
}

pub open spec fn channels_in(gs: Map<GuildId, ChannelGraphs>, g: GuildId) -> ChannelGraphs {
    if gs.contains_key(g) {
        gs[g]
    } else {
        Seq::empty()
    }
}

pub open spec fn history_in(
    hs: Map<(GuildId, ChannelId), Seq<HistoryEntry>>,
    g: GuildId,
    c: ChannelId,
) -> Seq<HistoryEntry> {
    if hs.contains_key((g, c)) {
        hs[(g, c)]
    } else {
        Seq::empty()
    }
}

pub open spec fn decayed_all(chs: ChannelGraphs, amount: u64) -> ChannelGraphs {
    chs.map_values(|p: (ChannelId, GraphView)| (p.0, decayed(p.1, amount)))
}

/// Step 1 of applying an interaction: a human message decays the whole guild.
pub open spec fn globally_decayed(chs: ChannelGraphs, i: Interaction) -> ChannelGraphs {
    if i.what == InteractionType::Message && !i.source_is_bot {
        decayed_all(chs, RELATIONSHIP_DECAY_GLOBAL)
    } else {
        chs
    }
}

/// `chs` with an empty graph for `c` at the end if it has none.
pub open spec fn with_channel(chs: ChannelGraphs, c: ChannelId) -> ChannelGraphs {
    if assoc_map(chs).contains_key(c) {
        chs
    } else {
        chs.push((c, Map::empty()))
    }
}

/// A guild's channel graphs after an interaction in channel `i.channel` with
/// the inferred `changes`: the guild-wide decay, then the channel's own decay,
/// then each change's strength added.
pub open spec fn applied_channels(
    chs: ChannelGraphs,
    i: Interaction,
    changes: Seq<RelationshipChange>,
) -> ChannelGraphs {
    with_channel(globally_decayed(chs, i), i.channel).map_values(
        |p: (ChannelId, GraphView)|
            if p.0 == i.channel {
                (p.0, with_changes(decayed(p.1, RELATIONSHIP_DECAY), changes))
            } else {
                p
            },
    )
}

/// The graph of channel `c` of guild `g`, if the store has one.
pub open spec fn channel_graph_in(gs: Map<GuildId, ChannelGraphs>, g: GuildId, c: ChannelId) -> Option<
    GraphView,
> {
    if gs.contains_key(g) && assoc_map(gs[g]).contains_key(c) {
        Some(assoc_map(gs[g])[c])
    } else {
        None
    }
}

/// `chs` without the graph of channel `c`, the others in their order.
pub open spec fn without_channel(chs: ChannelGraphs, c: ChannelId) -> ChannelGraphs
    decreases chs.len(),
{
    if chs.len() == 0 {
        chs
    } else {
        let rest = without_channel(chs.drop_last(), c);
        if chs.last().0 == c {
            rest
        } else {
            rest.push(chs.last())
        }
    }
}

proof fn lemma_without_channel(chs: ChannelGraphs, c: ChannelId)
    ensures
        (forall|m: int| 0 <= m < chs.len() ==> (#[trigger] chs[m]).0 != c) ==> without_channel(chs, c)
            == chs,
        forall|i: int|
            0 <= i < chs.len() && assoc_unique(chs) && (#[trigger] chs[i]).0 == c ==> without_channel(
                chs,
                c,
            ) == chs.remove(i),
    decreases chs.len(),
{
    if chs.len() > 0 {
        let p = chs.drop_last();
        lemma_without_channel(p, c);
        if forall|m: int| 0 <= m < chs.len() ==> (#[trigger] chs[m]).0 != c {
            assert forall|m: int| 0 <= m < p.len() implies (#[trigger] p[m]).0 != c by {
                assert(p[m] == chs[m]);
            }
            assert(chs.last().0 != c);
            assert(p.push(chs.last()) =~= chs);
        }
        assert forall|i: int|
            0 <= i < chs.len() && assoc_unique(chs) && (#[trigger] chs[i]).0 == c implies without_channel(
            chs,
            c,
        ) == chs.remove(i) by {
            if i == chs.len() - 1 {
                assert forall|m: int| 0 <= m < p.len() implies (#[trigger] p[m]).0 != c by {
                    assert(p[m] == chs[m]);
                    assert(chs[m].0 != chs[i].0);
                }
                assert(chs.remove(i) =~= p);
            } else {
                assert(assoc_unique(p));
                assert(p[i] == chs[i]);
                assert(chs.last().0 != chs[i].0);
                assert(p.remove(i).push(chs.last()) =~= chs.remove(i));
            }
        }
    }
}

/// The number of edges over all the graphs of `chs`.
pub open spec fn edge_total(chs: ChannelGraphs) -> nat
    decreases chs.len(),
{
    if chs.len() == 0 {
        0
    } else {
        edge_total(chs.drop_last()) + chs.last().1.dom().len()
    }
}

pub open spec fn capped_usize(n: nat) -> usize {
    if n > usize::MAX {
        usize::MAX
    } else {
        n as usize
    }
}

fn guild_size(cs: &Vec<ChannelGraph>) -> (r: usize)
    requires
        channels_wf(cs@),
    ensures
        r == capped_usize(edge_total(channels_view(cs@))),
{
    let ghost v = channels_view(cs@);
    let n = cs.len();
    let mut total: usize = 0;
    let mut j: usize = 0;
    assert(v.subrange(0, 0) =~= Seq::<(ChannelId, GraphView)>::empty());
    while j < n
        invariant
            n == cs@.len(),
            v == channels_view(cs@),
            channels_wf(cs@),
            j <= n,
            total == capped_usize(edge_total(v.subrange(0, j as int))),
        decreases n - j,
    {
        let k = cs[j].graph.len();
        assert(v.subrange(0, j + 1).drop_last() =~= v.subrange(0, j as int));
        assert(v[j as int].1 == cs@[j as int].graph@);
        total = total.saturating_add(k);
        j = j + 1;
    }
    assert(v.subrange(0, n as int) =~= v);
    total
}

pub open spec fn sorted_by_size(s: Seq<(GuildId, usize)>) -> bool {
    forall|a: int, b: int| 0 <= a < b < s.len() ==> (#[trigger] s[a]).1 >= (#[trigger] s[b]).1
}

/// Inserts `(id, size)` after every entry at least as large.
fn insert_by_size(out: &mut Vec<(GuildId, usize)>, id: GuildId, size: usize) -> (p: usize)
    requires
        sorted_by_size(old(out)@),
    ensures
        p <= old(out)@.len(),
        final(out)@ == old(out)@.insert(p as int, (id, size)),
        sorted_by_size(final(out)@),
{
    let mut p: usize = 0;
    while p < out.len() && out[p].1 >= size
        invariant
            p <= out@.len(),
            forall|q: int| 0 <= q < p ==> (#[trigger] out@[q]).1 >= size,
        decreases out@.len() - p,
    {
        p = p + 1;
    }
    let ghost o0 = out@;
    out.insert(p, (id, size));
    assert forall|a: int, b: int| 0 <= a < b < out@.len() implies (#[trigger] out@[a]).1 >= (
    #[trigger] out@[b]).1 by {
        let oa = if a < p { a } else { a - 1 };
        let ob = if b < p { b } else { b - 1 };
        if a != p && b != p {
            assert(out@[a] == o0[oa] && out@[b] == o0[ob]);
        } else if a == p {
            assert(out@[b] == o0[ob]);
            if ob > p {
                assert(o0[p as int].1 >= o0[ob].1);
            }
        } else {
            assert(out@[a] == o0[oa]);
        }
    }
    p
}

pub open spec fn graphs_of(chs: ChannelGraphs) -> Seq<GraphView> {
    chs.map_values(|p: (ChannelId, GraphView)| p.1)
}

fn channel_index(cs: &Vec<ChannelGraph>, c: ChannelId) -> (r: Option<usize>)
    requires
        channels_wf(cs@),
    ensures
        match r {
            Some(j) => j < cs@.len() && cs@[j as int].channel == c,
            None => !assoc_map(channels_view(cs@)).contains_key(c),
        },
{
    let n = cs.len();
    let mut j: usize = 0;
    while j < n
        invariant
            n == cs@.len(),
            j <= n,
            forall|m: int| 0 <= m < j ==> (#[trigger] cs@[m]).channel != c,
        decreases n - j,
    {
        if cs[j].channel == c {
            return Some(j);
        }
        j = j + 1;
    }
    proof {
        lemma_assoc_contains(channels_view(cs@), c);
        assert forall|m: int| 0 <= m < n implies (#[trigger] channels_view(cs@)[m]).0 != c by {
            assert(channels_view(cs@)[m].0 == cs@[m].channel);
        }
    }
    None
}

fn decay_channels(cs: &mut Vec<ChannelGraph>, amount: u64)
    requires
        channels_wf(old(cs)@),
    ensures
        channels_wf(final(cs)@),
        channels_view(final(cs)@) == decayed_all(channels_view(old(cs)@), amount),
{
    let ghost v0 = channels_view(cs@);
    let n = cs.len();
    let mut j: usize = 0;
    while j < n
        invariant
            n == cs@.len(),
            j <= n,
            forall|m: int| 0 <= m < n ==> (#[trigger] cs@[m]).graph.wf(),
            channels_view(cs@).len() == n,
            forall|m: int|
                0 <= m < n ==> #[trigger] channels_view(cs@)[m] == (if m < j {
                    (v0[m].0, decayed(v0[m].1, amount))
                } else {
                    v0[m]
                }),
            v0.len() == n,
        decreases n - j,
    {
        let ghost before = cs@;
        assert(channels_view(before)[j as int] == v0[j as int]);
        let mut cg = ChannelGraph { channel: 0, graph: UserRelationshipGraphMap::new() };
        cs.set_and_swap(j, &mut cg);
        assert(cg == before[j as int]);
        cg.graph.decay(amount);
        let ghost done = cg;
        cs.set_and_swap(j, &mut cg);
        assert(cs@ =~= before.update(j as int, done));
        proof {
            assert forall|m: int| 0 <= m < n implies #[trigger] channels_view(cs@)[m] == (if m < j
                + 1 {
                (v0[m].0, decayed(v0[m].1, amount))
            } else {
                v0[m]
            }) by {
                assert(channels_view(cs@)[m] == (cs@[m].channel, cs@[m].graph@));
                if m != j {
                    assert(cs@[m] == before[m]);
                    assert(channels_view(before)[m] == (before[m].channel, before[m].graph@));
                }
            }
        }
        j = j + 1;
    }
    assert(channels_view(cs@) =~= decayed_all(v0, amount));
    assert forall|a: int, b: int|
        0 <= a < n && 0 <= b < n && a != b implies (#[trigger] channels_view(cs@)[a]).0 != (
    #[trigger] channels_view(cs@)[b]).0 by {
        assert(channels_view(cs@)[a].0 == v0[a].0);
        assert(channels_view(cs@)[b].0 == v0[b].0);
    }
}

/// The store of relationship graphs and of the inference state behind them.
#[derive(Debug)]
pub struct SocialGraph {
    graph: Vec<GuildGraphs>,
    state: Vec<ChannelState>,
}

impl SocialGraph {
    closed spec fn guild_entries(&self) -> Seq<(GuildId, ChannelGraphs)> {
        self.graph@.map_values(|g: GuildGraphs| (g.guild, channels_view(g.channels@)))
    }

    closed spec fn state_entries(&self) -> Seq<((GuildId, ChannelId), Seq<HistoryEntry>)> {
        self.state@.map_values(|s: ChannelState| ((s.guild, s.channel), s.state.history()))
    }

    /// The known guilds, each with its channel graphs.
    pub closed spec fn guilds(&self) -> Map<GuildId, ChannelGraphs> {
        assoc_map(self.guild_entries())
    }

    /// The inference history of each (guild, channel) seen so far.
    pub closed spec fn histories(&self) -> Map<(GuildId, ChannelId), Seq<HistoryEntry>> {
        assoc_map(self.state_entries())
    }

    pub closed spec fn wf(&self) -> bool {
        &&& assoc_unique(self.guild_entries())
        &&& forall|i: int| 0 <= i < self.graph@.len() ==> channels_wf(#[trigger] self.graph@[i].channels@)
        &&& assoc_unique(self.state_entries())
        &&& forall|i: int| 0 <= i < self.state@.len() ==> (#[trigger] self.state@[i]).state.wf()
    }

    pub fn new() -> (r: Self)
        ensures
            r.wf(),
            r.guilds() == Map::<GuildId, ChannelGraphs>::empty(),
            r.histories() == Map::<(GuildId, ChannelId), Seq<HistoryEntry>>::empty(),
    {
        let r = SocialGraph { graph: Vec::new(), state: Vec::new() };
        assert(r.guild_entries() =~= Seq::empty());
        assert(r.state_entries() =~= Seq::empty());
        r
    }

    fn guild_index(&self, g: GuildId) -> (r: Option<usize>)
        requires
            self.wf(),
        ensures
            match r {
                Some(i) => i < self.graph@.len() && self.graph@[i as int].guild == g,
                None => !self.guilds().contains_key(g),
            },
    {
        let n = self.graph.len();
        let mut i: usize = 0;
        while i < n
            invariant
                n == self.graph@.len(),
                i <= n,
                forall|m: int| 0 <= m < i ==> (#[trigger] self.graph@[m]).guild != g,
            decreases n - i,
        {
            if self.graph[i].guild == g {
                return Some(i);
            }
            i = i + 1;
        }
        proof {
            lemma_assoc_contains(self.guild_entries(), g);
            assert forall|m: int| 0 <= m < n implies (#[trigger] self.guild_entries()[m]).0 != g by {
                assert(self.guild_entries()[m].0 == self.graph@[m].guild);
            }
        }
        None
    }

    fn state_index(&self, g: GuildId, c: ChannelId) -> (r: Option<usize>)
        requires
            self.wf(),
        ensures
            match r {
                Some(i) => i < self.state@.len() && self.state@[i as int].guild == g
                    && self.state@[i as int].channel == c,
                None => !self.histories().contains_key((g, c)),
            },
    {
        let n = self.state.len();
        let mut i: usize = 0;
        while i < n
            invariant
                n == self.state@.len(),
                i <= n,
                forall|m: int|
                    0 <= m < i ==> (#[trigger] self.state@[m]).guild != g || self.state@[m].channel
                        != c,
            decreases n - i,
        {
            if self.state[i].guild == g && self.state[i].channel == c {
                return Some(i);
            }
            i = i + 1;
        }
        proof {
            lemma_assoc_contains(self.state_entries(), (g, c));
            assert forall|m: int| 0 <= m < n implies (#[trigger] self.state_entries()[m]).0 != (
                g,
                c,
            ) by {
                assert(self.state_entries()[m].0 == (self.state@[m].guild, self.state@[m].channel));
            }
        }
        None
    }

    /// Runs inference for `interaction` with its channel's state, which is
    /// created empty on first use.
    pub fn infer(&mut self, interaction: &Interaction) -> (r: Vec<RelationshipChange>)
        requires
            old(self).wf(),
        ensures
            final(self).wf(),
            r@ == inferred_changes(
                history_in(old(self).histories(), interaction.guild, interaction.channel),
                *interaction,
            ),
            final(self).histories() == old(self).histories().insert(
                (interaction.guild, interaction.channel),
                next_history(
                    history_in(old(self).histories(), interaction.guild, interaction.channel),
                    *interaction,
                ),
            ),
            final(self).guilds() == old(self).guilds(),
    {
        let g = interaction.guild;
        let c = interaction.channel;
        let i = match self.state_index(g, c) {
            Some(i) => {
                proof {
                    lemma_assoc_value(self.state_entries(), i as int);
                }
                i
            },
            None => {
                let ghost e0 = self.state_entries();
                self.state.push(ChannelState { guild: g, channel: c, state: InferenceState::new() });
                proof {
                    lemma_assoc_push(e0, (g, c), Seq::empty());
                    assert(self.state_entries() =~= e0.push(((g, c), Seq::empty())));
                    assert(self.guild_entries() =~= old(self).guild_entries());
                    lemma_assoc_value(self.state_entries(), (self.state@.len() - 1) as int);
                }
                self.state.len() - 1
            },
        };
        let ghost e1 = self.state_entries();
        let ghost h = history_in(old(self).histories(), g, c);
        assert(e1[i as int] == ((g, c), h));
        let mut entry = ChannelState { guild: 0, channel: 0, state: InferenceState::new() };
        self.state.set_and_swap(i, &mut entry);
        let mut changes: Vec<RelationshipChange> = Vec::new();
        entry.state.infer(&mut changes, interaction);
        self.state.set_and_swap(i, &mut entry);
        proof {
            lemma_assoc_update(e1, i as int, next_history(h, *interaction));
            assert(self.state_entries() =~= e1.update(i as int, ((g, c), next_history(h, *interaction))));
            assert(self.guild_entries() =~= old(self).guild_entries());
            assert(changes@ =~= inferred_changes(h, *interaction));
        }
        changes
    }

    /// Applies an interaction and the changes inferred from it to the graph
    /// of its channel, which is created empty if the store has none.
    pub fn apply(&mut self, interaction: &Interaction, changes: &Vec<RelationshipChange>)
        requires
            old(self).wf(),
        ensures
            final(self).wf(),
            final(self).guilds() == old(self).guilds().insert(
                interaction.guild,
                applied_channels(
                    channels_in(old(self).guilds(), interaction.guild),
                    *interaction,
                    changes@,
                ),
            ),
            final(self).histories() == old(self).histories(),
    {
        let g = interaction.guild;
        let c = interaction.channel;
        let gi = match self.guild_index(g) {
            Some(gi) => {
                proof {
                    lemma_assoc_value(self.guild_entries(), gi as int);
                }
                gi
            },
            None => {
                let ghost e0 = self.guild_entries();
                let fresh = GuildGraphs { guild: g, channels: Vec::new() };
                assert(channels_view(fresh.channels@) =~= Seq::empty());
                self.graph.push(fresh);
                proof {
                    lemma_assoc_push(e0, g, Seq::empty());
                    assert(self.guild_entries() =~= e0.push((g, Seq::empty())));
                    assert(self.state_entries() =~= old(self).state_entries());
                    assert(channels_view(Seq::<ChannelGraph>::empty()) =~= Seq::empty());
                    lemma_assoc_value(self.guild_entries(), (self.graph@.len() - 1) as int);
                }
                self.graph.len() - 1
            },
        };
        let ghost e1 = self.guild_entries();
        let ghost chs = channels_in(old(self).guilds(), g);
        assert(e1[gi as int] == (g, chs));
        assert(channels_wf(self.graph@[gi as int].channels@));
        let mut entry = GuildGraphs { guild: 0, channels: Vec::new() };
        self.graph.set_and_swap(gi, &mut entry);
        assert(channels_view(entry.channels@) == chs);

        if interaction.what == InteractionType::Message && !interaction.source_is_bot {
            decay_channels(&mut entry.channels, RELATIONSHIP_DECAY_GLOBAL);
        }
        let ghost d = channels_view(entry.channels@);
        assert(d == globally_decayed(chs, *interaction));

        let ci = match channel_index(&entry.channels, c) {
            Some(ci) => {
                proof {
                    lemma_assoc_value(d, ci as int);
                    assert(d[ci as int].0 == c);
                }
                ci
            },
            None => {
                entry.channels.push(ChannelGraph { channel: c, graph: UserRelationshipGraphMap::new() });
                proof {
                    lemma_assoc_push(d, c, Map::empty());
                    assert(channels_view(entry.channels@) =~= d.push((c, Map::empty())));
                }
                entry.channels.len() - 1
            },
        };
        let ghost w = channels_view(entry.channels@);
        assert(w == with_channel(d, c));
        assert(assoc_unique(w));
        assert(channels_wf(entry.channels@));

        let mut cg = ChannelGraph { channel: 0, graph: UserRelationshipGraphMap::new() };
        entry.channels.set_and_swap(ci, &mut cg);
        cg.graph.decay(RELATIONSHIP_DECAY);
        cg.graph.apply_changes(changes);
        let ghost done = cg;
        entry.channels.set_and_swap(ci, &mut cg);
        proof {
            let nv = (c, with_changes(decayed(w[ci as int].1, RELATIONSHIP_DECAY), changes@));
            assert(channels_view(entry.channels@) =~= w.update(ci as int, nv));
            lemma_assoc_update(w, ci as int, nv.1);
            assert forall|m: int| 0 <= m < w.len() && m != ci implies (#[trigger] w[m]).0 != c by {
                assert(w[m].0 != w[ci as int].0);
            }
            assert(channels_view(entry.channels@) =~= applied_channels(chs, *interaction, changes@));
        }

        self.graph.set_and_swap(gi, &mut entry);
        proof {
            let nchs = applied_channels(chs, *interaction, changes@);
            lemma_assoc_update(e1, gi as int, nchs);
            assert(self.guild_entries() =~= e1.update(gi as int, (g, nchs)));
            assert(self.state_entries() =~= old(self).state_entries());
            assert forall|m: int| 0 <= m < self.graph@.len() implies channels_wf(
                #[trigger] self.graph@[m].channels@,
            ) by {
                if m != gi {
                    assert(self.graph@[m] == old(self).graph@[m]);
                }
            }
        }
    }

    /// The graph of channel `c` in guild `g`, if there is one.
    pub fn get_channel_graph(&self, g: GuildId, c: ChannelId) -> (r: Option<&UserRelationshipGraphMap>)
        requires
            self.wf(),
        ensures
            match r {
                Some(x) => x.wf() && channel_graph_in(self.guilds(), g, c) == Some(x@),
                None => channel_graph_in(self.guilds(), g, c) is None,
            },
    {
        match self.guild_index(g) {
            Some(gi) => {
                proof {
                    lemma_assoc_value(self.guild_entries(), gi as int);
                }
                let chs = &self.graph[gi].channels;
                assert(channels_wf(chs@));
                match channel_index(chs, c) {
                    Some(ci) => {
                        proof {
                            lemma_assoc_value(channels_view(chs@), ci as int);
                        }
                        Some(&chs[ci].graph)
                    },
                    None => None,
                }
            },
            None => None,
        }
    }

    /// Whether the store holds a graph for channel `c` of guild `g`.
    pub fn contains_channel(&self, g: GuildId, c: ChannelId) -> (r: bool)
        requires
            self.wf(),
        ensures
            r == channel_graph_in(self.guilds(), g, c) is Some,
    {
        self.get_channel_graph(g, c).is_some()
    }

    /// Gives channel `c` of guild `g` the graph `stored` (read back from
    /// disk, or empty) unless it already has one. Returns whether it did.
    pub fn load_channel_graph(&mut self, g: GuildId, c: ChannelId, stored: UserRelationshipGraphMap) -> (r: bool)
        requires
            old(self).wf(),
            stored.wf(),
        ensures
            final(self).wf(),
            r == channel_graph_in(old(self).guilds(), g, c) is None,
            r ==> final(self).guilds() == old(self).guilds().insert(
                g,
                channels_in(old(self).guilds(), g).push((c, stored@)),
            ),
            !r ==> final(self).guilds() == old(self).guilds(),
            final(self).histories() == old(self).histories(),
    {
        if self.contains_channel(g, c) {
            return false;
        }
        let gi = match self.guild_index(g) {
            Some(gi) => {
                proof {
                    lemma_assoc_value(self.guild_entries(), gi as int);
                }
                gi
            },
            None => {
                let ghost e0 = self.guild_entries();
                let fresh = GuildGraphs { guild: g, channels: Vec::new() };
                assert(channels_view(fresh.channels@) =~= Seq::empty());
                self.graph.push(fresh);
                proof {
                    lemma_assoc_push(e0, g, Seq::empty());
                    assert(self.guild_entries() =~= e0.push((g, Seq::empty())));
                    assert(self.state_entries() =~= old(self).state_entries());
                    lemma_assoc_value(self.guild_entries(), (self.graph@.len() - 1) as int);
                }
                self.graph.len() - 1
            },
        };
        let ghost e1 = self.guild_entries();
        let ghost chs = channels_in(old(self).guilds(), g);
        assert(e1[gi as int] == (g, chs));
        assert(channels_wf(self.graph@[gi as int].channels@));
        let mut entry = GuildGraphs { guild: 0, channels: Vec::new() };
        self.graph.set_and_swap(gi, &mut entry);
        assert(channels_view(entry.channels@) == chs);
        assert(!assoc_map(chs).contains_key(c));
        let ghost stored_view = stored@;
        entry.channels.push(ChannelGraph { channel: c, graph: stored });
        proof {
            lemma_assoc_push(chs, c, stored_view);
            assert(channels_view(entry.channels@) =~= chs.push((c, stored_view)));
        }
        let ghost done = entry;
        self.graph.set_and_swap(gi, &mut entry);
        proof {
            lemma_assoc_update(e1, gi as int, chs.push((c, stored_view)));
            assert(self.guild_entries() =~= e1.update(gi as int, (g, chs.push((c, stored_view)))));
            assert(self.state_entries() =~= old(self).state_entries());
            assert forall|m: int| 0 <= m < self.graph@.len() implies channels_wf(
                #[trigger] self.graph@[m].channels@,
            ) by {
                if m != gi {
                    assert(self.graph@[m] == old(self).graph@[m]);
                }
            }
        }
        true
    }

    /// The sum of all channel graphs of guild `g`, or `None` when the store
    /// holds no channel graph of that guild. The store is not changed.
    pub fn build_guild_graph(&self, g: GuildId) -> (r: Option<UserRelationshipGraphMap>)
        requires
            self.wf(),
        ensures
            r is None <==> channels_in(self.guilds(), g).len() == 0,
            r matches Some(x) ==> x.wf() && x@ == merge_all(graphs_of(self.guilds()[g])),
    {
        let gi = match self.guild_index(g) {
            Some(gi) => gi,
            None => {
                return None;
            },
        };
        proof {
            lemma_assoc_value(self.guild_entries(), gi as int);
        }
        let chs = &self.graph[gi].channels;
        let ghost gv = graphs_of(channels_view(chs@));
        assert(channels_wf(chs@));
        if chs.len() == 0 {
            return None;
        }
        let mut merged_graph = UserRelationshipGraphMap::new();
        let n = chs.len();
        let mut j: usize = 0;
        assert(gv.subrange(0, 0) =~= Seq::<GraphView>::empty());
        while j < n
            invariant
                n == chs@.len(),
                gv == graphs_of(channels_view(chs@)),
                channels_wf(chs@),
                j <= n,
                merged_graph.wf(),
                merged_graph@ == merge_all(gv.subrange(0, j as int)),
            decreases n - j,
        {
            merged_graph.merge_from(&chs[j].graph);
            assert(gv.subrange(0, j + 1).drop_last() =~= gv.subrange(0, j as int));
            j = j + 1;
        }
        assert(gv.subrange(0, n as int) =~= gv);
        Some(merged_graph)
    }

    /// Forgets guild `g`: its graphs and the inference state of its channels.
    pub fn remove_guild(&mut self, g: GuildId)
        requires
            old(self).wf(),
        ensures
            final(self).wf(),
            final(self).guilds() == old(self).guilds().remove(g),
            final(self).histories() == old(self).histories().restrict(
                old(self).histories().dom().filter(|k: (GuildId, ChannelId)| k.0 != g),
            ),
    {
        if let Some(gi) = self.guild_index(g) {
            let ghost e0 = self.guild_entries();
            proof {
                lemma_assoc_remove(e0, gi as int);
            }
            let _ = self.graph.remove(gi);
            assert(self.guild_entries() =~= e0.remove(gi as int));
            assert forall|m: int| 0 <= m < self.graph@.len() implies channels_wf(
                #[trigger] self.graph@[m].channels@,
            ) by {
                if m < gi {
                    assert(self.graph@[m] == old(self).graph@[m]);
                } else {
                    assert(self.graph@[m] == old(self).graph@[m + 1]);
                }
            }
        } else {
            assert(self.guilds() =~= old(self).guilds().remove(g));
        }
        let ghost mid = self.guild_entries();
        let ghost graph_mid = self.graph@;
        let ghost h0 = old(self).histories();
        let ghost target = h0.restrict(h0.dom().filter(|k: (GuildId, ChannelId)| k.0 != g));
        let mut i: usize = 0;
        while i < self.state.len()
            invariant
                self.guild_entries() == mid,
                self.graph@ == graph_mid,
                assoc_unique(mid),
                forall|m: int| 0 <= m < graph_mid.len() ==> channels_wf(#[trigger] graph_mid[m].channels@),
                assoc_unique(self.state_entries()),
                forall|m: int| 0 <= m < self.state@.len() ==> (#[trigger] self.state@[m]).state.wf(),
                i <= self.state@.len(),
                forall|m: int| 0 <= m < i ==> (#[trigger] self.state@[m]).guild != g,
                forall|k: (GuildId, ChannelId)| k.0 != g ==> (#[trigger] self.histories().contains_key(k)
                    <==> h0.contains_key(k)),
                forall|k: (GuildId, ChannelId)| #[trigger] self.histories().contains_key(k) ==> h0.contains_key(k)
                    && self.histories()[k] == h0[k],
            decreases self.state@.len() - i,
        {
            if self.state[i].guild == g {
                let ghost e0 = self.state_entries();
                let ghost s0 = self.state@;
                let ghost hprev = self.histories();
                proof {
                    lemma_assoc_remove(e0, i as int);
                }
                let _ = self.state.remove(i);
                assert(self.state_entries() =~= e0.remove(i as int));
                assert(e0[i as int].0.0 == g);
                assert(self.histories() == assoc_map(e0).remove(e0[i as int].0));
                assert forall|k: (GuildId, ChannelId)| k.0 != g implies (#[trigger] self.histories().contains_key(k)
                    <==> h0.contains_key(k)) by {
                    assert(hprev.contains_key(k) <==> h0.contains_key(k));
                }
                assert forall|k: (GuildId, ChannelId)| #[trigger] self.histories().contains_key(k) implies h0.contains_key(k)
                    && self.histories()[k] == h0[k] by {
                    assert(hprev.contains_key(k));
                }
                assert forall|m: int| 0 <= m < self.state@.len() implies (#[trigger] self.state@[m]).state.wf() by {
                    if m >= i {
                        assert(self.state@[m] == s0[m + 1]);
                    } else {
                        assert(self.state@[m] == s0[m]);
                    }
                }
            } else {
                i = i + 1;
            }
        }
        proof {
            assert forall|k: (GuildId, ChannelId)| #[trigger] self.histories().contains_key(k) implies k.0 != g by {
                lemma_assoc_contains(self.state_entries(), k);
                let m = choose|m: int| 0 <= m < self.state_entries().len() && (#[trigger] self.state_entries()[m]).0 == k;
                assert(self.state@[m].guild != g);
            }
            assert(self.histories() =~= target);
        }
    }

    /// Forgets channel `c` of guild `g`: its graph and its inference state.
    pub fn remove_channel(&mut self, g: GuildId, c: ChannelId)
        requires
            old(self).wf(),
        ensures
            final(self).wf(),
            final(self).guilds() == (if old(self).guilds().contains_key(g) {
                old(self).guilds().insert(g, without_channel(old(self).guilds()[g], c))
            } else {
                old(self).guilds()
            }),
            final(self).histories() == old(self).histories().remove((g, c)),
    {
        if let Some(i) = self.state_index(g, c) {
            let ghost e0 = self.state_entries();
            let ghost s0 = self.state@;
            proof {
                lemma_assoc_remove(e0, i as int);
            }
            let _ = self.state.remove(i);
            assert(self.state_entries() =~= e0.remove(i as int));
            assert forall|m: int| 0 <= m < self.state@.len() implies (#[trigger] self.state@[m]).state.wf() by {
                if m >= i {
                    assert(self.state@[m] == s0[m + 1]);
                } else {
                    assert(self.state@[m] == s0[m]);
                }
            }
        } else {
            assert(self.histories() =~= old(self).histories().remove((g, c)));
        }
        assert(self.guild_entries() == old(self).guild_entries());
        if let Some(gi) = self.guild_index(g) {
            proof {
                lemma_assoc_value(self.guild_entries(), gi as int);
            }
            let ghost e1 = self.guild_entries();
            let ghost chs = old(self).guilds()[g];
            assert(e1[gi as int] == (g, chs));
            assert(channels_wf(self.graph@[gi as int].channels@));
            let mut entry = GuildGraphs { guild: 0, channels: Vec::new() };
            self.graph.set_and_swap(gi, &mut entry);
            assert(channels_view(entry.channels@) == chs);
            proof {
                lemma_without_channel(chs, c);
            }
            match channel_index(&entry.channels, c) {
                Some(ci) => {
                    let ghost cs0 = entry.channels@;
                    proof {
                        lemma_assoc_remove(chs, ci as int);
                        assert(chs[ci as int].0 == c);
                    }
                    let _ = entry.channels.remove(ci);
                    assert(channels_view(entry.channels@) =~= chs.remove(ci as int));
                    assert forall|m: int| 0 <= m < entry.channels@.len() implies (#[trigger] entry.channels@[m]).graph.wf() by {
                        if m >= ci {
                            assert(entry.channels@[m] == cs0[m + 1]);
                        } else {
                            assert(entry.channels@[m] == cs0[m]);
                        }
                    }
                },
                None => {
                    proof {
                        lemma_assoc_contains(chs, c);
                    }
                },
            }
            let ghost nchs = channels_view(entry.channels@);
            assert(nchs == without_channel(chs, c));
            self.graph.set_and_swap(gi, &mut entry);
            proof {
                lemma_assoc_update(e1, gi as int, nchs);
                assert(self.guild_entries() =~= e1.update(gi as int, (g, nchs)));
                assert forall|m: int| 0 <= m < self.graph@.len() implies channels_wf(
                    #[trigger] self.graph@[m].channels@,
                ) by {
                    if m != gi {
                        assert(self.graph@[m] == old(self).graph@[m]);
                    }
                }
            }
        }
    }

    /// Every known guild with its number of edges, largest first.
    pub fn get_all_guild_ids(&self) -> (r: Vec<(GuildId, usize)>)
        requires
            self.wf(),
        ensures
            forall|g: GuildId|
                self.guilds().contains_key(g) <==> exists|i: int| 0 <= i < r@.len() && (#[trigger] r@[i]).0 == g,
            forall|i: int|
                0 <= i < r@.len() ==> self.guilds().contains_key((#[trigger] r@[i]).0) && r@[i].1
                    == capped_usize(edge_total(self.guilds()[r@[i].0])),
            forall|i: int, j: int| 0 <= i < j < r@.len() ==> (#[trigger] r@[i]).0 != (#[trigger] r@[j]).0,
            forall|i: int, j: int| 0 <= i < j < r@.len() ==> (#[trigger] r@[i]).1 >= (#[trigger] r@[j]).1,
    {
        let ghost e = self.guild_entries();
        let mut out: Vec<(GuildId, usize)> = Vec::new();
        // `from[q]` is the entry that `out[q]` came from, `at[m]` where entry `m` went.
        let ghost mut from: Seq<int> = Seq::empty();
        let ghost mut at: Seq<int> = Seq::empty();
        let n = self.graph.len();
        let mut i: usize = 0;
        while i < n
            invariant
                n == self.graph@.len(),
                e == self.guild_entries(),
                self.wf(),
                i <= n,
                out@.len() == i,
                from.len() == i,
                at.len() == i,
                forall|q: int|
                    0 <= q < i ==> 0 <= #[trigger] from[q] < i && e[from[q]].0 == out@[q].0
                        && out@[q].1 == capped_usize(edge_total(e[from[q]].1)),
                forall|m: int| 0 <= m < i ==> 0 <= #[trigger] at[m] < i && out@[at[m]].0 == e[m].0,
                forall|q: int| 0 <= q < i ==> at[#[trigger] from[q]] == q,
                sorted_by_size(out@),
            decreases n - i,
        {
            let id = self.graph[i].guild;
            assert(channels_wf(self.graph@[i as int].channels@));
            let size = guild_size(&self.graph[i].channels);
            assert(e[i as int] == (id, channels_view(self.graph@[i as int].channels@)));
            let ghost o0 = out@;
            let p = insert_by_size(&mut out, id, size);
            proof {
                let old_from = from;
                let old_at = at;
                from = old_from.insert(p as int, i as int);
                at = old_at.map_values(|q: int| if q < p { q } else { q + 1 }).push(p as int);
                assert forall|q: int| 0 <= q < i + 1 implies 0 <= #[trigger] from[q] < i + 1 && e[from[q]].0
                    == out@[q].0 && out@[q].1 == capped_usize(edge_total(e[from[q]].1)) by {
                    if q < p {
                        assert(out@[q] == o0[q] && from[q] == old_from[q]);
                    } else if q > p {
                        assert(out@[q] == o0[q - 1] && from[q] == old_from[q - 1]);
                    }
                }
                assert forall|q: int| 0 <= q < i + 1 implies at[#[trigger] from[q]] == q by {
                    if q < p {
                        assert(from[q] == old_from[q]);
                    } else if q > p {
                        assert(from[q] == old_from[q - 1]);
                    }
                }
                assert forall|m: int| 0 <= m < i + 1 implies 0 <= #[trigger] at[m] < i + 1 && out@[at[m]].0
                    == e[m].0 by {
                    if m < i {
                        let q = old_at[m];
                        if q < p {
                            assert(out@[q] == o0[q]);
                        } else {
                            assert(out@[q + 1] == o0[q]);
                        }
                    }
                }
            }
            i = i + 1;
        }
        proof {
            assert forall|g: GuildId| self.guilds().contains_key(g) <==> exists|q: int|
                0 <= q < out@.len() && (#[trigger] out@[q]).0 == g by {
                lemma_assoc_contains(e, g);
                if self.guilds().contains_key(g) {
                    let m = choose|m: int| 0 <= m < e.len() && (#[trigger] e[m]).0 == g;
                    assert(out@[at[m]].0 == g);
                }
                if exists|q: int| 0 <= q < out@.len() && (#[trigger] out@[q]).0 == g {
                    let q = choose|q: int| 0 <= q < out@.len() && (#[trigger] out@[q]).0 == g;
                    assert(e[from[q]].0 == g);
                }
            }
            assert forall|q: int| 0 <= q < out@.len() implies self.guilds().contains_key(
                (#[trigger] out@[q]).0,
            ) && out@[q].1 == capped_usize(edge_total(self.guilds()[out@[q].0])) by {
                lemma_assoc_value(e, from[q]);
            }
            assert forall|a: int, b: int| 0 <= a < b < out@.len() implies (#[trigger] out@[a]).0 != (
            #[trigger] out@[b]).0 by {
                assert(at[from[a]] == a && at[from[b]] == b);
                if from[a] != from[b] {
                    assert(e[from[a]].0 != e[from[b]].0);
                }
            }
        }
        out
    }

    /// Infers the changes that `interaction` implies and applies them, as
    /// one step; the changes are returned.
    pub fn record(&mut self, interaction: &Interaction) -> (r: Vec<RelationshipChange>)
        requires
            old(self).wf(),
        ensures
            final(self).wf(),
            r@ == inferred_changes(
                history_in(old(self).histories(), interaction.guild, interaction.channel),
                *interaction,
            ),
            final(self).histories() == old(self).histories().insert(
                (interaction.guild, interaction.channel),
                next_history(
                    history_in(old(self).histories(), interaction.guild, interaction.channel),
                    *interaction,
                ),
            ),
            final(self).guilds() == old(self).guilds().insert(
                interaction.guild,
                applied_channels(channels_in(old(self).guilds(), interaction.guild), *interaction, r@),
            ),
    {
        let changes = self.infer(interaction);
        self.apply(interaction, &changes);
        changes
    }

    /// The channel graphs of a guild have one entry per channel.
    pub proof fn lemma_channels_unique(&self, g: GuildId)
        requires
            self.wf(),
        ensures
            assoc_unique(channels_in(self.guilds(), g)),
    {
        if self.guilds().contains_key(g) {
            let e = self.guild_entries();
            lemma_assoc_contains(e, g);
            let x = choose|x: int| 0 <= x < e.len() && (#[trigger] e[x]).0 == g;
            lemma_assoc_value(e, x);
            assert(channels_wf(self.graph@[x].channels@));
        } else {
            assert forall|p: int, q: int| 0 <= p < channels_in(self.guilds(), g).len() && 0 <= q < channels_in(self.guilds(), g).len() && p != q
                implies (#[trigger] channels_in(self.guilds(), g)[p]).0 != (#[trigger] channels_in(self.guilds(), g)[q]).0 by {
            }
        }
    }
}

/// An edge that a channel graph lacks (decay removed it, or it never was)
/// is still absent after applying an interaction, unless one of the applied
/// changes names it.
pub proof fn lemma_absent_edge_stays_absent(
    before: SocialGraph,
    after: SocialGraph,
    i: Interaction,
    changes: Seq<RelationshipChange>,
    g: GuildId,
    c: ChannelId,
    k: EdgeKey,
)
    requires
        before.wf(),
        after.guilds() == before.guilds().insert(i.guild, applied_channels(channels_in(before.guilds(), i.guild), i, changes)),
        forall|j: int| 0 <= j < changes.len() ==> ((#[trigger] changes[j]).source, changes[j].target) != k,
        match channel_graph_in(before.guilds(), g, c) {
            Some(m) => !m.contains_key(k),
            None => true,
        },
    ensures
        match channel_graph_in(after.guilds(), g, c) {
            Some(m) => !m.contains_key(k),
            None => true,
        },
{
    if g == i.guild {
        let chs = channels_in(before.guilds(), g);
        before.lemma_channels_unique(g);
        let d = globally_decayed(chs, i);
        let w = with_channel(d, i.channel);
        let a = applied_channels(chs, i, changes);
        if assoc_map(a).contains_key(c) {
            lemma_assoc_contains(a, c);
            let x = choose|x: int| 0 <= x < a.len() && (#[trigger] a[x]).0 == c;
            assert(assoc_unique(d)) by {
                assert forall|p: int, q: int| 0 <= p < d.len() && 0 <= q < d.len() && p != q implies (#[trigger] d[p]).0
                    != (#[trigger] d[q]).0 by {
                    assert(d[p].0 == chs[p].0 && d[q].0 == chs[q].0);
                }
            }
            if !assoc_map(d).contains_key(i.channel) {
                lemma_assoc_push(d, i.channel, Map::empty());
            }
            assert(assoc_unique(a)) by {
                assert forall|p: int, q: int| 0 <= p < a.len() && 0 <= q < a.len() && p != q implies (#[trigger] a[p]).0
                    != (#[trigger] a[q]).0 by {
                    assert(a[p].0 == w[p].0 && a[q].0 == w[q].0);
                }
            }
            lemma_assoc_value(a, x);
            // The graph of `c` before, if it had one.
            let old_graph = if x < chs.len() {
                lemma_assoc_value(chs, x);
                assert(chs[x].0 == c);
                assert(w[x] == d[x]);
                chs[x].1
            } else {
                Map::<EdgeKey, u64>::empty()
            };
            assert(!old_graph.contains_key(k));
            let base = if i.what == InteractionType::Message && !i.source_is_bot {
                decayed(old_graph, RELATIONSHIP_DECAY_GLOBAL)
            } else {
                old_graph
            };
            assert(w[x].1 == base);
            assert(!base.contains_key(k));
            if c == i.channel {
                assert(!decayed(base, RELATIONSHIP_DECAY).contains_key(k));
                lemma_changes_only_add_named(decayed(base, RELATIONSHIP_DECAY), changes, k);
            }
        }
    }
}

/// Two orderings of the same channel graphs, one graph per channel, merge
/// to the same guild graph.
pub proof fn lemma_merge_same_channels(chs1: ChannelGraphs, chs2: ChannelGraphs)
    requires
        assoc_unique(chs1),
        assoc_unique(chs2),
        assoc_map(chs1) == assoc_map(chs2),
    ensures
        merge_all(graphs_of(chs1)) == merge_all(graphs_of(chs2)),
{
    assert forall|k: EdgeKey| #[trigger] merge_all(graphs_of(chs1)).contains_key(k) == merge_all(graphs_of(chs2)).contains_key(k)
        && (merge_all(graphs_of(chs1)).contains_key(k) ==> merge_all(graphs_of(chs1))[k] == merge_all(graphs_of(chs2))[k]) by {
        lemma_same_channels_total(chs1, chs2, k);
        lemma_merge_all_closed_form(graphs_of(chs1), k);
        lemma_merge_all_closed_form(graphs_of(chs2), k);
    }
    assert(merge_all(graphs_of(chs1)) =~= merge_all(graphs_of(chs2)));
}

proof fn lemma_same_channels_total(chs1: ChannelGraphs, chs2: ChannelGraphs, k: EdgeKey)
    requires
        assoc_unique(chs1),
        assoc_unique(chs2),
        assoc_map(chs1) == assoc_map(chs2),
    ensures
        total_strength(graphs_of(chs1), k) == total_strength(graphs_of(chs2), k),
        in_some(graphs_of(chs1), k) == in_some(graphs_of(chs2), k),
    decreases chs1.len(),
{
    crate::assoc::lemma_assoc_len(chs1);
    crate::assoc::lemma_assoc_len(chs2);
    if chs1.len() == 0 {
        assert(chs2.len() == 0);
        assert(graphs_of(chs1) =~= graphs_of(chs2));
    } else {
        let l = chs1.len() - 1;
        let (c, m) = chs1[l];
        lemma_assoc_value(chs1, l);
        lemma_assoc_contains(chs2, c);
        let j = choose|j: int| 0 <= j < chs2.len() && (#[trigger] chs2[j]).0 == c;
        lemma_assoc_value(chs2, j);
        assert(chs2[j].1 == m);
        lemma_assoc_remove(chs1, l);
        lemma_assoc_remove(chs2, j);
        lemma_same_channels_total(chs1.remove(l), chs2.remove(j), k);
        lemma_total_remove(graphs_of(chs1), l, k);
        lemma_total_remove(graphs_of(chs2), j, k);
        assert(graphs_of(chs1).remove(l) =~= graphs_of(chs1.remove(l)));
        assert(graphs_of(chs2).remove(j) =~= graphs_of(chs2.remove(j)));
    }
}

} // verus!

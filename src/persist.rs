//! The on-disk form of a channel graph: a flat list of `"source:target"`
//! keys with their strengths, in one file per (guild, channel).

use vstd::prelude::*;

use crate::graph::{
    edge_key, edge_map, keys_unique, lemma_edge_map_contains, lemma_edge_map_finite, lemma_edge_map_value, EdgeKey,
    UserRelationshipGraphMap,
};
use crate::ids::{ChannelId, GuildId, UserId};
use crate::mention::{lemma_run_end, run_end};
use crate::text::{
    all_digits, chars_of, decimal_text, decimal_value, is_digit, lemma_decimal_round_trip,
    push_char, push_decimal, scan_digits,
};

verus! {

/// The text key of the edge from `source` to `target`.
pub open spec fn edge_key_text_of(source: UserId, target: UserId) -> Seq<char> {
    decimal_text(source as nat) + seq![':'] + decimal_text(target as nat)
}

pub open spec fn not_colon(c: char) -> bool {
    c != ':'
}

/// The id that `t[from..to]` spells: an optional `+` and decimal digits, not zero.
pub open spec fn id_in(t: Seq<char>, from: int, to: int) -> Option<UserId> {
    let j = if from < to && t[from] == '+' {
        from + 1
    } else {
        from
    };
    let d = t.subrange(j, to);
    if d.len() > 0 && all_digits(d) && decimal_value(d) <= u64::MAX && decimal_value(d) != 0 {
        Some(decimal_value(d) as u64)
    } else {
        None
    }
}

/// The pair of ids that a key spells: exactly two ids separated by `:`.
pub open spec fn parsed_edge_key(t: Seq<char>) -> Option<EdgeKey> {
    let i = run_end(t, 0, |c: char| not_colon(c));
    if i < t.len() && run_end(t, i + 1, |c: char| not_colon(c)) == t.len() {
        match (id_in(t, 0, i), id_in(t, i + 1, t.len() as int)) {
            (Some(a), Some(b)) => Some((a, b)),
            _ => None,
        }
    } else {
        None
    }
}

/// The graph that stored entries describe, or `None` where a key is
/// malformed. A later entry overrides an earlier one; entries of strength
/// zero are skipped.
pub open spec fn loaded_map(es: Seq<(Seq<char>, u64)>) -> Option<Map<EdgeKey, u64>>
    decreases es.len(),
{
    if es.len() == 0 {
        Some(Map::empty())
    } else {
        match (loaded_map(es.drop_last()), parsed_edge_key(es.last().0)) {
            (Some(m), Some(k)) => Some(
                if es.last().1 > 0 {
                    m.insert(k, es.last().1)
                } else {
                    m
                },
            ),
            _ => None,
        }
    }
}

pub open spec fn entries_view(es: Seq<(String, u64)>) -> Seq<(Seq<char>, u64)> {
    es.map_values(|e: (String, u64)| (e.0@, e.1))
}

/// `e` is the stored form of an edge of `m`: its key and its strength.
pub open spec fn saved_edge(m: Map<EdgeKey, u64>, e: (String, u64)) -> bool {
    exists|k: EdgeKey| #[trigger] m.contains_key(k) && e.0@ == edge_key_text_of(k.0, k.1) && e.1 == m[k]
}

pub open spec fn ids_nonzero(m: Map<EdgeKey, u64>) -> bool {
    forall|k: EdgeKey| #[trigger] m.contains_key(k) ==> k.0 != 0 && k.1 != 0
}

proof fn lemma_decimal_no_colon(n: nat, t: Seq<char>, off: int)
    requires
        0 <= off,
        off + decimal_text(n).len() <= t.len(),
        t.subrange(off, off + decimal_text(n).len()) == decimal_text(n),
    ensures
        forall|k: int| off <= k < off + decimal_text(n).len() ==> not_colon(#[trigger] t[k]) && is_digit(t[k]),
{
    lemma_decimal_round_trip(n);
    assert forall|k: int| off <= k < off + decimal_text(n).len() implies not_colon(#[trigger] t[k]) && is_digit(t[k]) by {
        assert(t[k] == decimal_text(n)[k - off]);
    }
}

/// A key written for an edge between non-zero ids reads back as that edge.
pub proof fn lemma_edge_key_round_trip(source: UserId, target: UserId)
    requires
        source != 0,
        target != 0,
    ensures
        parsed_edge_key(edge_key_text_of(source, target)) == Some((source, target)),
{
    let a = decimal_text(source as nat);
    let b = decimal_text(target as nat);
    let t = edge_key_text_of(source, target);
    lemma_decimal_round_trip(source as nat);
    lemma_decimal_round_trip(target as nat);
    assert(t.subrange(0, a.len() as int) =~= a);
    assert(t.subrange(a.len() as int + 1, t.len() as int) =~= b);
    lemma_decimal_no_colon(source as nat, t, 0);
    lemma_decimal_no_colon(target as nat, t, a.len() as int + 1);
    assert(t[a.len() as int] == ':');
    lemma_run_end(t, 0, a.len() as int, |c: char| not_colon(c));
    lemma_run_end(t, a.len() as int + 1, t.len() as int, |c: char| not_colon(c));
    assert(t[0] == a[0]);
    assert(t[a.len() as int + 1] == b[0]);
}

proof fn lemma_decimal_text_injective(m: nat, n: nat)
    requires
        decimal_text(m) == decimal_text(n),
    ensures
        m == n,
{
    lemma_decimal_round_trip(m);
    lemma_decimal_round_trip(n);
}

/// Different edges have different keys.
pub proof fn lemma_edge_key_text_injective(s1: UserId, t1: UserId, s2: UserId, t2: UserId)
    requires
        edge_key_text_of(s1, t1) == edge_key_text_of(s2, t2),
    ensures
        s1 == s2 && t1 == t2,
{
    let x = edge_key_text_of(s1, t1);
    let a1 = decimal_text(s1 as nat);
    let a2 = decimal_text(s2 as nat);
    lemma_decimal_round_trip(s1 as nat);
    lemma_decimal_round_trip(s2 as nat);
    lemma_decimal_round_trip(t1 as nat);
    lemma_decimal_round_trip(t2 as nat);
    assert(x.subrange(0, a1.len() as int) =~= a1);
    assert(edge_key_text_of(s2, t2).subrange(0, a2.len() as int) =~= a2);
    lemma_decimal_no_colon(s1 as nat, x, 0);
    lemma_decimal_no_colon(s2 as nat, x, 0);
    assert(x[a1.len() as int] == ':');
    assert(edge_key_text_of(s2, t2)[a2.len() as int] == ':');
    if a1.len() < a2.len() {
        assert(not_colon(x[a1.len() as int]));
    } else if a2.len() < a1.len() {
        assert(not_colon(x[a2.len() as int]));
    }
    assert(a1.len() == a2.len());
    assert(a1 =~= a2);
    lemma_decimal_text_injective(s1 as nat, s2 as nat);
    let b1 = decimal_text(t1 as nat);
    let b2 = decimal_text(t2 as nat);
    assert(x.subrange(a1.len() as int + 1, x.len() as int) =~= b1);
    assert(edge_key_text_of(s2, t2).subrange(a2.len() as int + 1, x.len() as int) =~= b2);
    lemma_decimal_text_injective(t1 as nat, t2 as nat);
}

/// The text key of the edge from `source` to `target`.
pub fn edge_key_text(source: UserId, target: UserId) -> (r: String)
    ensures
        r@ == edge_key_text_of(source, target),
{
    let mut out = String::new();
    push_decimal(&mut out, source);
    push_char(&mut out, ':');
    push_decimal(&mut out, target);
    out
}

fn id_in_chars(cs: &Vec<char>, from: usize, to: usize) -> (r: Option<UserId>)
    requires
        from <= to <= cs@.len(),
        to < cs@.len() ==> !is_digit(cs@[to as int]),
    ensures
        r == id_in(cs@, from as int, to as int),
{
    let j = if from < to && cs[from] == '+' {
        from + 1
    } else {
        from
    };
    let (e, value) = scan_digits(cs, j);
    let ghost d = cs@.subrange(j as int, to as int);
    if e != to {
        proof {
            if e < to {
                assert(d[e - j] == cs@[e as int]);
            } else {
                assert(cs@.subrange(j as int, e as int)[to - j] == cs@[to as int]);
            }
        }
        return None;
    }
    match value {
        Some(v) => if v != 0 {
            Some(v)
        } else {
            None
        },
        None => None,
    }
}

/// The pair of ids that a stored key spells, if it is well formed.
pub fn parse_edge_key(key: &str) -> (r: Option<EdgeKey>)
    ensures
        r == parsed_edge_key(key@),
{
    let cs = chars_of(key);
    let mut i: usize = 0;
    while i < cs.len() && cs[i] != ':'
        invariant
            i <= cs@.len(),
            forall|k: int| 0 <= k < i ==> not_colon(#[trigger] cs@[k]),
        decreases cs@.len() - i,
    {
        i = i + 1;
    }
    proof {
        lemma_run_end(cs@, 0, i as int, |c: char| not_colon(c));
    }
    if i == cs.len() {
        return None;
    }
    let mut j: usize = i + 1;
    while j < cs.len() && cs[j] != ':'
        invariant
            i + 1 <= j <= cs@.len(),
            forall|k: int| i + 1 <= k < j ==> not_colon(#[trigger] cs@[k]),
        decreases cs@.len() - j,
    {
        j = j + 1;
    }
    proof {
        lemma_run_end(cs@, i + 1, j as int, |c: char| not_colon(c));
    }
    if j != cs.len() {
        return None;
    }
    let a = id_in_chars(&cs, 0, i);
    let b = id_in_chars(&cs, i + 1, cs.len());
    match (a, b) {
        (Some(a), Some(b)) => Some((a, b)),
        _ => None,
    }
}

/// The name of the file that holds the graph of a channel.
pub fn graph_data_file_name(guild_id: GuildId, channel_id: ChannelId) -> (r: String)
    ensures
        r@ == decimal_text(guild_id as nat) + seq!['_'] + decimal_text(channel_id as nat) + ".json"@,
{
    let mut out = String::new();
    push_decimal(&mut out, guild_id);
    push_char(&mut out, '_');
    push_decimal(&mut out, channel_id);
    out.append(".json");
    out
}

/// The entries to store for `graph`, or `None` for an empty graph, which is
/// never written: one entry per edge, keyed `"source:target"`, with its
/// strength. Read back, the entries give the same graph.
pub fn entries_for_save(graph: &UserRelationshipGraphMap) -> (r: Option<Vec<(String, u64)>>)
    requires
        graph.wf(),
    ensures
        r is None <==> graph@.dom().len() == 0,
        r matches Some(es) ==> {
            &&& es@.len() == graph@.dom().len()
            &&& forall|i: int|
                #![trigger es@[i]] 0 <= i < es@.len() ==> saved_edge(graph@, es@[i])
            &&& forall|k: EdgeKey|
                #[trigger] graph@.contains_key(k) ==> exists|i: int|
                    0 <= i < es@.len() && (#[trigger] es@[i]).0@ == edge_key_text_of(k.0, k.1)
            &&& forall|i: int, j: int| 0 <= i < es@.len() && 0 <= j < es@.len() && i != j ==> (#[trigger] es@[i]).0@ != (#[trigger] es@[j]).0@
            &&& (ids_nonzero(graph@) ==> loaded_map(entries_view(es@)) == Some(graph@))
        },
{
    if graph.is_empty() {
        return None;
    }
    let edges = graph.edges();
    let mut out: Vec<(String, u64)> = Vec::new();
    let n = edges.len();
    let mut i: usize = 0;
    while i < n
        invariant
            n == edges@.len(),
            i <= n,
            edge_map(edges@) == graph@,
            keys_unique(edges@),
            forall|m: int| 0 <= m < n ==> (#[trigger] edges@[m]).weight > 0,
            out@.len() == i,
            forall|m: int| 0 <= m < i ==> (#[trigger] out@[m]).0@ == edge_key_text_of(edges@[m].source, edges@[m].target)
                && out@[m].1 == edges@[m].weight,
        decreases n - i,
    {
        let e = edges[i];
        out.push((edge_key_text(e.source, e.target), e.weight));
        i = i + 1;
    }
    proof {
        lemma_saved_entries(edges@, out@, graph@);
        if ids_nonzero(graph@) {
            assert forall|m: int| 0 <= m < n implies graph@.contains_key(edge_key(#[trigger] edges@[m])) by {
                lemma_edge_map_value(edges@, m);
            }
            lemma_loaded_edges(edges@, entries_view(out@), graph@);
        }
    }
    Some(out)
}

proof fn lemma_saved_entries(edges: Seq<crate::graph::Edge>, out: Seq<(String, u64)>, m: Map<EdgeKey, u64>)
    requires
        edge_map(edges) == m,
        keys_unique(edges),
        out.len() == edges.len(),
        forall|i: int| 0 <= i < out.len() ==> (#[trigger] out[i]).0@ == edge_key_text_of(edges[i].source, edges[i].target)
            && out[i].1 == edges[i].weight,
    ensures
        out.len() == m.dom().len(),
        forall|i: int|
            #![trigger out[i]] 0 <= i < out.len() ==> saved_edge(m, out[i]),
        forall|k: EdgeKey|
            #[trigger] m.contains_key(k) ==> exists|i: int| 0 <= i < out.len() && (#[trigger] out[i]).0@ == edge_key_text_of(k.0, k.1),
        forall|i: int, j: int| 0 <= i < out.len() && 0 <= j < out.len() && i != j ==> (#[trigger] out[i]).0@ != (#[trigger] out[j]).0@,
{
    lemma_edge_map_finite(edges);
    assert forall|i: int| #![trigger out[i]] 0 <= i < out.len() implies saved_edge(m, out[i]) by {
        lemma_edge_map_value(edges, i);
        let k = edge_key(edges[i]);
        assert(m.contains_key(k));
        assert(out[i].0@ == edge_key_text_of(k.0, k.1));
        assert(out[i].1 == m[k]);
        assert(saved_edge(m, out[i]));
    }
    assert forall|k: EdgeKey| #[trigger] m.contains_key(k) implies exists|i: int|
        0 <= i < out.len() && (#[trigger] out[i]).0@ == edge_key_text_of(k.0, k.1) by {
        lemma_edge_map_contains(edges, k);
        let i = choose|i: int| 0 <= i < edges.len() && edge_key(#[trigger] edges[i]) == k;
        assert(out[i].0@ == edge_key_text_of(k.0, k.1));
    }
    assert forall|i: int, j: int| 0 <= i < out.len() && 0 <= j < out.len() && i != j implies (#[trigger] out[i]).0@
        != (#[trigger] out[j]).0@ by {
        assert(edge_key(edges[i]) != edge_key(edges[j]));
        if out[i].0@ == out[j].0@ {
            lemma_edge_key_text_injective(edges[i].source, edges[i].target, edges[j].source, edges[j].target);
        }
    }
}

proof fn lemma_loaded_edges(s: Seq<crate::graph::Edge>, es: Seq<(Seq<char>, u64)>, whole: Map<EdgeKey, u64>)
    requires
        es.len() == s.len(),
        forall|m: int| 0 <= m < s.len() ==> (#[trigger] es[m]).0 == edge_key_text_of(s[m].source, s[m].target)
            && es[m].1 == s[m].weight && s[m].weight > 0,
        forall|m: int| 0 <= m < s.len() ==> whole.contains_key(edge_key(#[trigger] s[m])),
        ids_nonzero(whole),
    ensures
        loaded_map(es) == Some(edge_map(s)),
    decreases s.len(),
{
    if s.len() > 0 {
        let l = s.len() - 1;
        lemma_loaded_edges(s.drop_last(), es.drop_last(), whole);
        assert(whole.contains_key(edge_key(s[l])));
        lemma_edge_key_round_trip(s[l].source, s[l].target);
    }
}

/// The graph that stored entries describe, or `None` if a key is malformed.
pub fn graph_from_entries(entries: &Vec<(String, u64)>) -> (r: Option<UserRelationshipGraphMap>)
    ensures
        match loaded_map(entries_view(entries@)) {
            Some(m) => r matches Some(g) && g.wf() && g@ == m,
            None => r is None,
        },
{
    let ghost ev = entries_view(entries@);
    let mut graph = UserRelationshipGraphMap::new();
    let n = entries.len();
    let mut i: usize = 0;
    while i < n
        invariant
            n == entries@.len(),
            ev == entries_view(entries@),
            i <= n,
            graph.wf(),
            loaded_map(ev.subrange(0, i as int)) == Some(graph@),
        decreases n - i,
    {
        let key = parse_edge_key(entries[i].0.as_str());
        let ghost p = ev.subrange(0, i as int);
        assert(ev.subrange(0, i + 1).drop_last() =~= p);
        assert(ev[i as int] == (entries@[i as int].0@, entries@[i as int].1));
        match key {
            Some((source, target)) => {
                let w = entries[i].1;
                if w > 0 {
                    graph.set_strength(source, target, w);
                }
            },
            None => {
                proof {
                    lemma_loaded_prefix_none(ev, i as int + 1);
                }
                return None;
            },
        }
        i = i + 1;
    }
    assert(ev.subrange(0, n as int) =~= ev);
    Some(graph)
}

proof fn lemma_loaded_prefix_none(es: Seq<(Seq<char>, u64)>, i: int)
    requires
        0 <= i <= es.len(),
        loaded_map(es.subrange(0, i)) is None,
    ensures
        loaded_map(es) is None,
    decreases es.len() - i,
{
    if i < es.len() {
        assert(es.subrange(0, i + 1).drop_last() =~= es.subrange(0, i));
        lemma_loaded_prefix_none(es, i + 1);
    } else {
        assert(es.subrange(0, i) =~= es);
    }
}

} // verus!

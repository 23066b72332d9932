//! A weighted directed graph of relationships between users, and its decay.

use vstd::prelude::*;

use crate::ids::UserId;
use crate::inference::{strength_of, RelationshipChange, RelationshipStrength};

verus! {

pub type EdgeKey = (UserId, UserId);

/// A directed edge from `source` to `target` with its strength.
#[derive(Debug, Clone, Copy, PartialEq, Eq, Structural)]
pub struct Edge {
    pub source: UserId,
    pub target: UserId,
    pub weight: RelationshipStrength,
}

pub open spec fn edge_key(e: Edge) -> EdgeKey {
    (e.source, e.target)
}

/// The map that a list of edges stands for; a later edge overrides an earlier one.
pub open spec fn edge_map(s: Seq<Edge>) -> Map<EdgeKey, u64>
    decreases s.len(),
{
    if s.len() == 0 {
        Map::empty()
    } else {
        edge_map(s.drop_last()).insert(edge_key(s.last()), s.last().weight)
    }
}

pub open spec fn keys_unique(s: Seq<Edge>) -> bool {
    forall|i: int, j: int|
        0 <= i < s.len() && 0 <= j < s.len() && i != j ==> edge_key(#[trigger] s[i]) != edge_key(
            #[trigger] s[j],
        )
}

pub open spec fn weights_positive(m: Map<EdgeKey, u64>) -> bool {
    forall|k: EdgeKey| #[trigger] m.contains_key(k) ==> m[k] > 0
}

/// The strength of `k` in `m`, zero where there is no edge.
pub open spec fn strength_in(m: Map<EdgeKey, u64>, k: EdgeKey) -> u64 {
    if m.contains_key(k) {
        m[k]
    } else {
        0
    }
}

pub open spec fn sat_add(a: u64, b: u64) -> u64 {
    if a + b > u64::MAX {
        u64::MAX
    } else {
        (a + b) as u64
    }
}

/// `m` with `amount` added to the edge `k`, which is created if absent.
pub open spec fn strengthened(m: Map<EdgeKey, u64>, k: EdgeKey, amount: u64) -> Map<
    EdgeKey,
    u64,
> {
    m.insert(k, sat_add(strength_in(m, k), amount))
}

/// `m` after one decay by `amount`: every edge loses `amount`, and an edge
/// whose strength would not stay above zero is removed.
pub open spec fn decayed(m: Map<EdgeKey, u64>, amount: u64) -> Map<EdgeKey, u64> {
    Map::new(|k: EdgeKey| m.contains_key(k) && m[k] > amount, |k: EdgeKey| (m[k] - amount) as u64)
}

/// `m` after `n` decays by `amount`.
pub open spec fn decayed_times(m: Map<EdgeKey, u64>, amount: u64, n: nat) -> Map<EdgeKey, u64>
    decreases n,
{
    if n == 0 {
        m
    } else {
        decayed(decayed_times(m, amount, (n - 1) as nat), amount)
    }
}

/// `m` with the strength of each change's reason added, in order.
pub open spec fn with_changes(m: Map<EdgeKey, u64>, cs: Seq<RelationshipChange>) -> Map<
    EdgeKey,
    u64,
>
    decreases cs.len(),
{
    if cs.len() == 0 {
        m
    } else {
        strengthened(
            with_changes(m, cs.drop_last()),
            (cs.last().source, cs.last().target),
            strength_of(cs.last().reason),
        )
    }
}

/// The edge-wise sum of two graphs.
pub open spec fn merged(a: Map<EdgeKey, u64>, b: Map<EdgeKey, u64>) -> Map<EdgeKey, u64> {
    Map::new(
        |k: EdgeKey| a.contains_key(k) || b.contains_key(k),
        |k: EdgeKey| sat_add(strength_in(a, k), strength_in(b, k)),
    )
}

/// The edge-wise sum of all the graphs of `s`, taken in order.
pub open spec fn merge_all(s: Seq<Map<EdgeKey, u64>>) -> Map<EdgeKey, u64>
    decreases s.len(),
{
    if s.len() == 0 {
        Map::empty()
    } else {
        merged(merge_all(s.drop_last()), s.last())
    }
}

pub proof fn lemma_edge_map_contains(s: Seq<Edge>, k: EdgeKey)
    ensures
        edge_map(s).contains_key(k) <==> exists|i: int|
            0 <= i < s.len() && edge_key(#[trigger] s[i]) == k,
    decreases s.len(),
{
    if s.len() > 0 {
        lemma_edge_map_contains(s.drop_last(), k);
        if edge_map(s.drop_last()).contains_key(k) {
            let i = choose|i: int| 0 <= i < s.len() - 1 && edge_key(#[trigger] s.drop_last()[i]) == k;
            assert(edge_key(s[i]) == k);
        }
        if exists|i: int| 0 <= i < s.len() && edge_key(#[trigger] s[i]) == k {
            let i = choose|i: int| 0 <= i < s.len() && edge_key(#[trigger] s[i]) == k;
            if i < s.len() - 1 {
                assert(edge_key(s.drop_last()[i]) == k);
            }
        }
    }
}

pub proof fn lemma_edge_map_value(s: Seq<Edge>, i: int)
    requires
        keys_unique(s),
        0 <= i < s.len(),
    ensures
        edge_map(s).contains_key(edge_key(s[i])),
        edge_map(s)[edge_key(s[i])] == s[i].weight,
    decreases s.len(),
{
    if i < s.len() - 1 {
        assert(keys_unique(s.drop_last()));
        lemma_edge_map_value(s.drop_last(), i);
        assert(edge_key(s[i]) != edge_key(s.last()));
    }
}

pub proof fn lemma_edge_map_finite(s: Seq<Edge>)
    ensures
        edge_map(s).dom().finite(),
        keys_unique(s) ==> edge_map(s).dom().len() == s.len(),
    decreases s.len(),
{
    if s.len() > 0 {
        lemma_edge_map_finite(s.drop_last());
        if keys_unique(s) {
            assert(keys_unique(s.drop_last()));
            lemma_edge_map_contains(s.drop_last(), edge_key(s.last()));
            if edge_map(s.drop_last()).contains_key(edge_key(s.last())) {
                let i = choose|i: int|
                    0 <= i < s.len() - 1 && edge_key(#[trigger] s.drop_last()[i]) == edge_key(
                        s.last(),
                    );
                assert(edge_key(s[i]) == edge_key(s[s.len() - 1]));
            }
        }
    }
}

pub proof fn lemma_edge_map_update(s: Seq<Edge>, i: int, e: Edge)
    requires
        keys_unique(s),
        0 <= i < s.len(),
        edge_key(e) == edge_key(s[i]),
    ensures
        edge_map(s.update(i, e)) == edge_map(s).insert(edge_key(e), e.weight),
        keys_unique(s.update(i, e)),
    decreases s.len(),
{
    let u = s.update(i, e);
    if i == s.len() - 1 {
        assert(u.drop_last() =~= s.drop_last());
        assert(edge_map(u) =~= edge_map(s).insert(edge_key(e), e.weight));
    } else {
        assert(keys_unique(s.drop_last()));
        lemma_edge_map_update(s.drop_last(), i, e);
        assert(u.drop_last() =~= s.drop_last().update(i, e));
        assert(edge_key(s.last()) != edge_key(e));
        assert(edge_map(u) =~= edge_map(s).insert(edge_key(e), e.weight));
    }
    assert forall|a: int, b: int|
        0 <= a < u.len() && 0 <= b < u.len() && a != b implies edge_key(#[trigger] u[a])
        != edge_key(#[trigger] u[b]) by {
        assert(edge_key(u[a]) == edge_key(s[a]));
        assert(edge_key(u[b]) == edge_key(s[b]));
    }
}

/// Decaying `n` times by `amount` takes `n * amount` from an edge of
/// strength `w`; from the decay that brings it to zero or below on, the edge
/// is gone.
pub proof fn lemma_decay_repeated(m: Map<EdgeKey, u64>, amount: u64, n: nat, k: EdgeKey)
    requires
        m.contains_key(k),
        m[k] > 0,
        amount > 0,
    ensures
        decayed_times(m, amount, n).contains_key(k) <==> m[k] > n * amount,
        m[k] > n * amount ==> decayed_times(m, amount, n)[k] == m[k] - n * amount,
    decreases n,
{
    if n > 0 {
        let d = decayed_times(m, amount, (n - 1) as nat);
        lemma_decay_repeated(m, amount, (n - 1) as nat, k);
        let before = (n - 1) * amount;
        assert(before + amount == n * amount) by (nonlinear_arith)
            requires
                before == (n - 1) * amount,
                n > 0,
        ;
        assert(decayed_times(m, amount, n) == decayed(d, amount));
        if m[k] > n * amount {
            assert(d.contains_key(k) && d[k] == m[k] - before);
        } else if d.contains_key(k) {
            assert(d[k] == m[k] - before);
        }
    } else {
        assert(n * amount == 0) by (nonlinear_arith)
            requires
                n == 0,
        ;
    }
}

/// A decay never adds an edge nor raises a strength.
pub proof fn lemma_decay_shrinks(m: Map<EdgeKey, u64>, amount: u64, k: EdgeKey)
    requires
        amount > 0,
        decayed(m, amount).contains_key(k),
    ensures
        m.contains_key(k),
        decayed(m, amount)[k] < m[k],
{
}

/// The sum of the strengths of `k` over all the graphs of `s`.
pub open spec fn total_strength(s: Seq<Map<EdgeKey, u64>>, k: EdgeKey) -> nat
    decreases s.len(),
{
    if s.len() == 0 {
        0
    } else {
        (total_strength(s.drop_last(), k) + strength_in(s.last(), k)) as nat
    }
}

pub open spec fn in_some(s: Seq<Map<EdgeKey, u64>>, k: EdgeKey) -> bool {
    exists|i: int| 0 <= i < s.len() && (#[trigger] s[i]).contains_key(k)
}

pub open spec fn capped(n: nat) -> u64 {
    if n > u64::MAX {
        u64::MAX
    } else {
        n as u64
    }
}

/// The merged graph has an edge where some graph has one, with the sum of
/// their strengths, saturated at `u64::MAX`.
pub proof fn lemma_merge_all_closed_form(s: Seq<Map<EdgeKey, u64>>, k: EdgeKey)
    ensures
        merge_all(s).contains_key(k) <==> in_some(s, k),
        strength_in(merge_all(s), k) == capped(total_strength(s, k)),
    decreases s.len(),
{
    if s.len() > 0 {
        let p = s.drop_last();
        lemma_merge_all_closed_form(p, k);
        if in_some(p, k) {
            let i = choose|i: int| 0 <= i < p.len() && (#[trigger] p[i]).contains_key(k);
            assert(s[i] == p[i]);
        }
        if in_some(s, k) && !s.last().contains_key(k) {
            let i = choose|i: int| 0 <= i < s.len() && (#[trigger] s[i]).contains_key(k);
            assert(p[i] == s[i]);
        }
    }
}

pub proof fn lemma_total_remove(s: Seq<Map<EdgeKey, u64>>, j: int, k: EdgeKey)
    requires
        0 <= j < s.len(),
    ensures
        total_strength(s, k) == total_strength(s.remove(j), k) + strength_in(s[j], k),
        in_some(s, k) <==> (in_some(s.remove(j), k) || s[j].contains_key(k)),
    decreases s.len(),
{
    let r = s.remove(j);
    if j < s.len() - 1 {
        lemma_total_remove(s.drop_last(), j, k);
        assert(s.drop_last().remove(j) =~= r.drop_last());
        assert(r.last() == s.last());
    } else {
        assert(r =~= s.drop_last());
    }
    if in_some(s, k) && !s[j].contains_key(k) {
        let i = choose|i: int| 0 <= i < s.len() && (#[trigger] s[i]).contains_key(k);
        if i < j {
            assert(r[i] == s[i]);
        } else {
            assert(r[i - 1] == s[i]);
        }
    }
    if in_some(r, k) {
        let i = choose|i: int| 0 <= i < r.len() && (#[trigger] r[i]).contains_key(k);
        if i < j {
            assert(r[i] == s[i]);
        } else {
            assert(r[i] == s[i + 1]);
        }
    }
}

proof fn lemma_total_permutation(s1: Seq<Map<EdgeKey, u64>>, s2: Seq<Map<EdgeKey, u64>>, k: EdgeKey)
    requires
        s1.to_multiset() == s2.to_multiset(),
    ensures
        total_strength(s1, k) == total_strength(s2, k),
        in_some(s1, k) == in_some(s2, k),
    decreases s1.len(),
{
    broadcast use vstd::seq_lib::group_to_multiset_ensures;

    if s1.len() == 0 {
        assert(s1.to_multiset().len() == 0);
        assert(s2.to_multiset().len() == s2.len());
    } else {
        let x = s1.last();
        let p = s1.drop_last();
        assert(s1 =~= p.push(x));
        assert(s2.to_multiset().count(x) > 0);
        assert(s2.contains(x));
        let j = choose|j: int| 0 <= j < s2.len() && s2[j] == x;
        assert(s2.remove(j).to_multiset() =~= p.to_multiset());
        lemma_total_permutation(p, s2.remove(j), k);
        lemma_total_remove(s2, j, k);
        lemma_total_remove(s1, s1.len() - 1, k);
        assert(s1.remove(s1.len() - 1) =~= p);
    }
}

/// Merging channel graphs does not depend on the order in which they are
/// taken: any two orderings of the same graphs merge to the same graph.
pub proof fn lemma_merge_order_independent(s1: Seq<Map<EdgeKey, u64>>, s2: Seq<Map<EdgeKey, u64>>)
    requires
        s1.to_multiset() == s2.to_multiset(),
    ensures
        merge_all(s1) == merge_all(s2),
{
    assert forall|k: EdgeKey| #[trigger] merge_all(s1).contains_key(k) == merge_all(s2).contains_key(k)
        && (merge_all(s1).contains_key(k) ==> merge_all(s1)[k] == merge_all(s2)[k]) by {
        lemma_total_permutation(s1, s2, k);
        lemma_merge_all_closed_form(s1, k);
        lemma_merge_all_closed_form(s2, k);
    }
    assert(merge_all(s1) =~= merge_all(s2));
}

/// The edges of `m` whose strength is at least `threshold`.
pub open spec fn at_least(m: Map<EdgeKey, u64>, threshold: u64) -> Map<EdgeKey, u64> {
    Map::new(|k: EdgeKey| m.contains_key(k) && m[k] >= threshold, |k: EdgeKey| m[k])
}

/// Adding changes creates only the edges the changes name.
pub proof fn lemma_changes_only_add_named(m: Map<EdgeKey, u64>, cs: Seq<RelationshipChange>, k: EdgeKey)
    requires
        !m.contains_key(k),
        forall|j: int| 0 <= j < cs.len() ==> ((#[trigger] cs[j]).source, cs[j].target) != k,
    ensures
        !with_changes(m, cs).contains_key(k),
    decreases cs.len(),
{
    if cs.len() > 0 {
        assert forall|j: int| 0 <= j < cs.drop_last().len() implies ((#[trigger] cs.drop_last()[j]).source, cs.drop_last()[j].target) != k by {
            assert(cs.drop_last()[j] == cs[j]);
        }
        lemma_changes_only_add_named(m, cs.drop_last(), k);
        assert((cs.last().source, cs.last().target) != k);
    }
}

/// A directed graph of relationships, with at most one edge per ordered pair
/// of users.
#[derive(Debug, Clone)]
pub struct UserRelationshipGraphMap {
    edges: Vec<Edge>,
}

impl View for UserRelationshipGraphMap {
    type V = Map<EdgeKey, u64>;

    closed spec fn view(&self) -> Map<EdgeKey, u64> {
        edge_map(self.edges@)
    }
}

impl UserRelationshipGraphMap {
    pub closed spec fn edges_wf(&self) -> bool {
        &&& keys_unique(self.edges@)
        &&& forall|i: int| 0 <= i < self.edges@.len() ==> (#[trigger] self.edges@[i]).weight > 0
    }

    /// Well-formed: one edge per pair, and every edge is strictly positive.
    pub open spec fn wf(&self) -> bool {
        &&& self.edges_wf()
        &&& weights_positive(self@)
        &&& self@.dom().finite()
    }

    proof fn lemma_wf(&self)
        requires
            self.edges_wf(),
        ensures
            self.wf(),
            self@.dom().len() == self.edges@.len(),
    {
        lemma_edge_map_finite(self.edges@);
        assert forall|k: EdgeKey| #[trigger] self@.contains_key(k) implies self@[k] > 0 by {
            lemma_edge_map_contains(self.edges@, k);
            let i = choose|i: int| 0 <= i < self.edges@.len() && edge_key(#[trigger] self.edges@[i]) == k;
            lemma_edge_map_value(self.edges@, i);
        }
    }

    pub fn new() -> (r: Self)
        ensures
            r.wf(),
            r@ == Map::<EdgeKey, u64>::empty(),
    {
        let r = UserRelationshipGraphMap { edges: Vec::new() };
        proof {
            r.lemma_wf();
        }
        r
    }

    /// The number of edges.
    pub fn len(&self) -> (r: usize)
        requires
            self.wf(),
        ensures
            r == self@.dom().len(),
    {
        proof {
            self.lemma_wf();
        }
        self.edges.len()
    }

    pub fn is_empty(&self) -> (r: bool)
        requires
            self.wf(),
        ensures
            r <==> self@.dom().len() == 0,
    {
        proof {
            self.lemma_wf();
        }
        self.edges.len() == 0
    }

    fn find(&self, source: UserId, target: UserId) -> (r: Option<usize>)
        requires
            self.wf(),
        ensures
            match r {
                Some(i) => i < self.edges@.len() && edge_key(self.edges@[i as int]) == (
                    source,
                    target,
                ),
                None => !self@.contains_key((source, target)),
            },
    {
        let n = self.edges.len();
        let mut i: usize = 0;
        while i < n
            invariant
                n == self.edges@.len(),
                i <= n,
                forall|j: int| 0 <= j < i ==> edge_key(#[trigger] self.edges@[j]) != (source, target),
            decreases n - i,
        {
            if self.edges[i].source == source && self.edges[i].target == target {
                return Some(i);
            }
            i = i + 1;
        }
        proof {
            lemma_edge_map_contains(self.edges@, (source, target));
        }
        None
    }

    /// The strength of the edge from `source` to `target`, if there is one.
    pub fn get(&self, source: UserId, target: UserId) -> (r: Option<RelationshipStrength>)
        requires
            self.wf(),
        ensures
            r == (if self@.contains_key((source, target)) {
                Some(self@[(source, target)])
            } else {
                None
            }),
    {
        match self.find(source, target) {
            Some(i) => {
                proof {
                    lemma_edge_map_value(self.edges@, i as int);
                }
                Some(self.edges[i].weight)
            },
            None => None,
        }
    }

    /// The edges, one per pair, in no particular order.
    pub fn edges(&self) -> (r: Vec<Edge>)
        requires
            self.wf(),
        ensures
            edge_map(r@) == self@,
            keys_unique(r@),
            forall|i: int| 0 <= i < r@.len() ==> (#[trigger] r@[i]).weight > 0,
    {
        self.edges.clone()
    }

    /// Adds `amount` to the edge from `source` to `target`, creating it at
    /// `amount` if absent. The sum saturates at `u64::MAX`.
    pub fn add_strength(&mut self, source: UserId, target: UserId, amount: RelationshipStrength)
        requires
            old(self).wf(),
            amount > 0,
        ensures
            final(self).wf(),
            final(self)@ == strengthened(old(self)@, (source, target), amount),
    {
        match self.find(source, target) {
            Some(i) => {
                let e = self.edges[i];
                let ne = Edge { source, target, weight: e.weight.saturating_add(amount) };
                proof {
                    lemma_edge_map_value(self.edges@, i as int);
                    lemma_edge_map_update(self.edges@, i as int, ne);
                }
                self.edges.set(i, ne);
            },
            None => {
                proof {
                    assert forall|j: int| 0 <= j < self.edges@.len() implies edge_key(
                        #[trigger] self.edges@[j],
                    ) != (source, target) by {
                        lemma_edge_map_contains(self.edges@, (source, target));
                    }
                }
                self.edges.push(Edge { source, target, weight: amount });
                assert(self.edges@.drop_last() =~= old(self).edges@);
            },
        }
        proof {
            self.lemma_wf();
        }
        assert(self@ =~= strengthened(old(self)@, (source, target), amount));
    }

    /// Subtracts `amount` from every edge and removes those that do not stay
    /// above zero.
    pub fn decay(&mut self, amount: RelationshipStrength)
        requires
            old(self).wf(),
        ensures
            final(self).wf(),
            final(self)@ == decayed(old(self)@, amount),
    {
        let ghost s = self.edges@;
        let mut kept: Vec<Edge> = Vec::new();
        let n = self.edges.len();
        let mut i: usize = 0;
        while i < n
            invariant
                n == s.len(),
                s == self.edges@,
                keys_unique(s),
                forall|j: int| 0 <= j < s.len() ==> (#[trigger] s[j]).weight > 0,
                i <= n,
                keys_unique(kept@),
                forall|j: int| 0 <= j < kept@.len() ==> (#[trigger] kept@[j]).weight > 0,
                forall|j: int|
                    0 <= j < kept@.len() ==> exists|m: int|
                        0 <= m < i && edge_key(#[trigger] s[m]) == edge_key(#[trigger] kept@[j]),
                edge_map(kept@) == decayed(edge_map(s.subrange(0, i as int)), amount),
            decreases n - i,
        {
            let e = self.edges[i];
            let ghost p = s.subrange(0, i as int);
            assert(s.subrange(0, i + 1) =~= p.push(e));
            assert forall|j: int| 0 <= j < p.len() implies edge_key(#[trigger] p[j]) != edge_key(
                e,
            ) by {
                assert(p[j] == s[j]);
            }
            proof {
                lemma_edge_map_contains(p, edge_key(e));
            }
            if e.weight > amount {
                let ne = Edge { source: e.source, target: e.target, weight: e.weight - amount };
                assert forall|j: int| 0 <= j < kept@.len() implies edge_key(#[trigger] kept@[j])
                    != edge_key(ne) by {
                    let m = choose|m: int| 0 <= m < i && edge_key(#[trigger] s[m]) == edge_key(kept@[j]);
                    assert(edge_key(s[m]) != edge_key(s[i as int]));
                }
                let ghost k0 = kept@;
                kept.push(ne);
                assert(kept@.drop_last() =~= k0);
                assert forall|j: int| 0 <= j < kept@.len() implies exists|m: int|
                    0 <= m < i + 1 && edge_key(#[trigger] s[m]) == edge_key(#[trigger] kept@[j]) by {
                    if j == kept@.len() - 1 {
                        assert(edge_key(s[i as int]) == edge_key(kept@[j]));
                    } else {
                        assert(kept@[j] == k0[j]);
                    }
                }
                assert(p.push(e).drop_last() =~= p);
                assert(edge_map(kept@) =~= decayed(edge_map(p.push(e)), amount));
            } else {
                assert(p.push(e).drop_last() =~= p);
                assert(edge_map(kept@) =~= decayed(edge_map(p.push(e)), amount));
            }
            i = i + 1;
        }
        assert(s.subrange(0, n as int) =~= s);
        self.edges = kept;
        proof {
            self.lemma_wf();
        }
    }

    /// Adds the strength of each change's reason to its edge, in order.
    pub fn apply_changes(&mut self, changes: &Vec<RelationshipChange>)
        requires
            old(self).wf(),
        ensures
            final(self).wf(),
            final(self)@ == with_changes(old(self)@, changes@),
    {
        let n = changes.len();
        let mut i: usize = 0;
        while i < n
            invariant
                n == changes@.len(),
                i <= n,
                self.wf(),
                self@ == with_changes(old(self)@, changes@.subrange(0, i as int)),
            decreases n - i,
        {
            let c = changes[i];
            let amount = c.reason.get_change_strength();
            self.add_strength(c.source, c.target, amount);
            assert(changes@.subrange(0, i + 1).drop_last() =~= changes@.subrange(0, i as int));
            i = i + 1;
        }
        assert(changes@.subrange(0, n as int) =~= changes@);
    }

    /// Adds every edge of `other` into this graph.
    pub fn merge_from(&mut self, other: &UserRelationshipGraphMap)
        requires
            old(self).wf(),
            other.wf(),
        ensures
            final(self).wf(),
            final(self)@ == merged(old(self)@, other@),
    {
        let ghost a = self@;
        let ghost s = other.edges@;
        let n = other.edges.len();
        let mut i: usize = 0;
        proof {
            assert(merged(a, edge_map(s.subrange(0, 0))) =~= a);
        }
        while i < n
            invariant
                n == s.len(),
                s == other.edges@,
                other.edges_wf(),
                i <= n,
                self.wf(),
                self@ == merged(a, edge_map(s.subrange(0, i as int))),
            decreases n - i,
        {
            let e = other.edges[i];
            let ghost p = s.subrange(0, i as int);
            let ghost before = self@;
            assert(s.subrange(0, i + 1) =~= p.push(e));
            assert(p.push(e).drop_last() =~= p);
            assert forall|j: int| 0 <= j < p.len() implies edge_key(#[trigger] p[j]) != edge_key(
                e,
            ) by {
                assert(p[j] == s[j]);
            }
            proof {
                lemma_edge_map_contains(p, edge_key(e));
            }
            self.add_strength(e.source, e.target, e.weight);
            assert(self@ =~= merged(a, edge_map(p.push(e))));
            i = i + 1;
        }
        assert(s.subrange(0, n as int) =~= s);
    }

    /// Sets the edge from `source` to `target` to `weight`.
    pub fn set_strength(&mut self, source: UserId, target: UserId, weight: RelationshipStrength)
        requires
            old(self).wf(),
            weight > 0,
        ensures
            final(self).wf(),
            final(self)@ == old(self)@.insert((source, target), weight),
    {
        match self.find(source, target) {
            Some(i) => {
                let ne = Edge { source, target, weight };
                proof {
                    lemma_edge_map_update(self.edges@, i as int, ne);
                }
                self.edges.set(i, ne);
            },
            None => {
                proof {
                    assert forall|j: int| 0 <= j < self.edges@.len() implies edge_key(
                        #[trigger] self.edges@[j],
                    ) != (source, target) by {
                        lemma_edge_map_contains(self.edges@, (source, target));
                    }
                }
                self.edges.push(Edge { source, target, weight });
                assert(self.edges@.drop_last() =~= old(self).edges@);
            },
        }
        proof {
            self.lemma_wf();
        }
    }

    /// Keeps only the edges whose strength is at least `threshold`.
    pub fn retain_at_least(&mut self, threshold: RelationshipStrength)
        requires
            old(self).wf(),
        ensures
            final(self).wf(),
            final(self)@ == at_least(old(self)@, threshold),
    {
        let ghost s = self.edges@;
        let mut kept: Vec<Edge> = Vec::new();
        let n = self.edges.len();
        let mut i: usize = 0;
        while i < n
            invariant
                n == s.len(),
                s == self.edges@,
                keys_unique(s),
                forall|j: int| 0 <= j < s.len() ==> (#[trigger] s[j]).weight > 0,
                i <= n,
                keys_unique(kept@),
                forall|j: int| 0 <= j < kept@.len() ==> (#[trigger] kept@[j]).weight > 0,
                forall|j: int|
                    0 <= j < kept@.len() ==> exists|m: int|
                        0 <= m < i && edge_key(#[trigger] s[m]) == edge_key(#[trigger] kept@[j]),
                edge_map(kept@) == at_least(edge_map(s.subrange(0, i as int)), threshold),
            decreases n - i,
        {
            let e = self.edges[i];
            let ghost p = s.subrange(0, i as int);
            assert(s.subrange(0, i + 1) =~= p.push(e));
            assert(p.push(e).drop_last() =~= p);
            assert forall|j: int| 0 <= j < p.len() implies edge_key(#[trigger] p[j]) != edge_key(e) by {
                assert(p[j] == s[j]);
            }
            proof {
                lemma_edge_map_contains(p, edge_key(e));
            }
            if e.weight >= threshold {
                assert forall|j: int| 0 <= j < kept@.len() implies edge_key(#[trigger] kept@[j]) != edge_key(e) by {
                    let m = choose|m: int| 0 <= m < i && edge_key(#[trigger] s[m]) == edge_key(kept@[j]);
                    assert(edge_key(s[m]) != edge_key(s[i as int]));
                }
                let ghost k0 = kept@;
                kept.push(e);
                assert(kept@.drop_last() =~= k0);
                assert forall|j: int| 0 <= j < kept@.len() implies exists|m: int|
                    0 <= m < i + 1 && edge_key(#[trigger] s[m]) == edge_key(#[trigger] kept@[j]) by {
                    if j == kept@.len() - 1 {
                        assert(edge_key(s[i as int]) == edge_key(kept@[j]));
                    } else {
                        assert(kept@[j] == k0[j]);
                    }
                }
                assert(edge_map(kept@) =~= at_least(edge_map(p.push(e)), threshold));
            } else {
                assert(edge_map(kept@) =~= at_least(edge_map(p.push(e)), threshold));
            }
            i = i + 1;
        }
        assert(s.subrange(0, n as int) =~= s);
        self.edges = kept;
        proof {
            self.lemma_wf();
        }
    }
}

} // verus!

//! Association lists: a sequence of keyed entries read as a map.

use vstd::prelude::*;

verus! {

/// The map a list of `(key, value)` entries stands for; a later entry
/// overrides an earlier one.
pub open spec fn assoc_map<K, V>(s: Seq<(K, V)>) -> Map<K, V>
    decreases s.len(),
{
    if s.len() == 0 {
        Map::empty()
    } else {
        assoc_map(s.drop_last()).insert(s.last().0, s.last().1)
    }
}

pub open spec fn assoc_unique<K, V>(s: Seq<(K, V)>) -> bool {
    forall|i: int, j: int|
        0 <= i < s.len() && 0 <= j < s.len() && i != j ==> (#[trigger] s[i]).0 != (#[trigger] s[j]).0
}

pub proof fn lemma_assoc_contains<K, V>(s: Seq<(K, V)>, k: K)
    ensures
        assoc_map(s).contains_key(k) <==> exists|i: int| 0 <= i < s.len() && (#[trigger] s[i]).0 == k,
    decreases s.len(),
{
    if s.len() > 0 {
        lemma_assoc_contains(s.drop_last(), k);
        if assoc_map(s.drop_last()).contains_key(k) {
            let i = choose|i: int| 0 <= i < s.len() - 1 && (#[trigger] s.drop_last()[i]).0 == k;
            assert(s[i].0 == k);
        }
        if exists|i: int| 0 <= i < s.len() && (#[trigger] s[i]).0 == k {
            let i = choose|i: int| 0 <= i < s.len() && (#[trigger] s[i]).0 == k;
            if i < s.len() - 1 {
                assert(s.drop_last()[i].0 == k);
            }
        }
    }
}

pub proof fn lemma_assoc_value<K, V>(s: Seq<(K, V)>, i: int)
    requires
        assoc_unique(s),
        0 <= i < s.len(),
    ensures
        assoc_map(s).contains_key(s[i].0),
        assoc_map(s)[s[i].0] == s[i].1,
    decreases s.len(),
{
    if i < s.len() - 1 {
        assert(assoc_unique(s.drop_last()));
        lemma_assoc_value(s.drop_last(), i);
        assert(s[i].0 != s.last().0);
    }
}

pub proof fn lemma_assoc_update<K, V>(s: Seq<(K, V)>, i: int, v: V)
    requires
        assoc_unique(s),
        0 <= i < s.len(),
    ensures
        assoc_map(s.update(i, (s[i].0, v))) == assoc_map(s).insert(s[i].0, v),
        assoc_unique(s.update(i, (s[i].0, v))),
    decreases s.len(),
{
    let u = s.update(i, (s[i].0, v));
    if i == s.len() - 1 {
        assert(u.drop_last() =~= s.drop_last());
        assert(assoc_map(u) =~= assoc_map(s).insert(s[i].0, v));
    } else {
        assert(assoc_unique(s.drop_last()));
        lemma_assoc_update(s.drop_last(), i, v);
        assert(u.drop_last() =~= s.drop_last().update(i, (s[i].0, v)));
        assert(s.last().0 != s[i].0);
        assert(assoc_map(u) =~= assoc_map(s).insert(s[i].0, v));
    }
    assert forall|a: int, b: int| 0 <= a < u.len() && 0 <= b < u.len() && a != b implies (
    #[trigger] u[a]).0 != (#[trigger] u[b]).0 by {
        assert(u[a].0 == s[a].0);
        assert(u[b].0 == s[b].0);
    }
}

pub proof fn lemma_assoc_push<K, V>(s: Seq<(K, V)>, k: K, v: V)
    requires
        assoc_unique(s),
        !assoc_map(s).contains_key(k),
    ensures
        assoc_map(s.push((k, v))) == assoc_map(s).insert(k, v),
        assoc_unique(s.push((k, v))),
{
    let p = s.push((k, v));
    assert(p.drop_last() =~= s);
    lemma_assoc_contains(s, k);
    assert forall|a: int, b: int| 0 <= a < p.len() && 0 <= b < p.len() && a != b implies (
    #[trigger] p[a]).0 != (#[trigger] p[b]).0 by {
        if a < s.len() && b < s.len() {
            assert(p[a] == s[a] && p[b] == s[b]);
        } else if a < s.len() {
            assert(p[a] == s[a]);
        } else {
            assert(p[b] == s[b]);
        }
    }
}

pub proof fn lemma_assoc_remove<K, V>(s: Seq<(K, V)>, i: int)
    requires
        assoc_unique(s),
        0 <= i < s.len(),
    ensures
        assoc_map(s.remove(i)) == assoc_map(s).remove(s[i].0),
        assoc_unique(s.remove(i)),
    decreases s.len(),
{
    let r = s.remove(i);
    assert forall|a: int, b: int| 0 <= a < r.len() && 0 <= b < r.len() && a != b implies (
    #[trigger] r[a]).0 != (#[trigger] r[b]).0 by {
        let sa = if a < i { a } else { a + 1 };
        let sb = if b < i { b } else { b + 1 };
        assert(r[a] == s[sa] && r[b] == s[sb]);
    }
    if i == s.len() - 1 {
        assert(r =~= s.drop_last());
        lemma_assoc_contains(s.drop_last(), s[i].0);
        if assoc_map(s.drop_last()).contains_key(s[i].0) {
            let j = choose|j: int| 0 <= j < s.len() - 1 && (#[trigger] s.drop_last()[j]).0 == s[i].0;
            assert(s[j].0 == s[i].0);
        }
        assert(assoc_map(r) =~= assoc_map(s).remove(s[i].0));
    } else {
        assert(assoc_unique(s.drop_last()));
        lemma_assoc_remove(s.drop_last(), i);
        assert(s.drop_last().remove(i) =~= r.drop_last());
        assert(r.last() == s.last());
        assert(s.last().0 != s[i].0);
        assert(assoc_map(r) =~= assoc_map(s).remove(s[i].0));
    }
}

pub proof fn lemma_assoc_len<K, V>(s: Seq<(K, V)>)
    requires
        assoc_unique(s),
    ensures
        assoc_map(s).dom().finite(),
        assoc_map(s).dom().len() == s.len(),
    decreases s.len(),
{
    if s.len() > 0 {
        assert(assoc_unique(s.drop_last()));
        lemma_assoc_len(s.drop_last());
        lemma_assoc_contains(s.drop_last(), s.last().0);
        if assoc_map(s.drop_last()).contains_key(s.last().0) {
            let i = choose|i: int| 0 <= i < s.len() - 1 && (#[trigger] s.drop_last()[i]).0 == s.last().0;
            assert(s[i].0 == s[s.len() - 1].0);
        }
    }
}

} // verus!

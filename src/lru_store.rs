//! The bounded least-recently-used stores of the cache, kept by the `lru`
//! crate. Their contents are named as sequences of entries, the most
//! recently used first.

use std::num::NonZeroUsize;

use lru::LruCache;
use vstd::prelude::*;

use crate::entities::{CachedMember, CachedMessage, CachedUser};
use crate::ids::{MessageId, UserId};

verus! {

#[verifier::external_type_specification]
#[verifier::external_body]
#[verifier::reject_recursive_types(K)]
#[verifier::reject_recursive_types(V)]
#[verifier::reject_recursive_types(S)]
pub struct ExLruCache<K, V, S>(LruCache<K, V, S>);

#[verifier::external_type_specification]
#[verifier::external_body]
pub struct ExDefaultHasher(lru::DefaultHasher);

/// The index of the first entry with key `k`.
pub open spec fn lru_index<V>(s: Seq<(u64, V)>, k: u64) -> Option<int>
    decreases s.len(),
{
    if s.len() == 0 {
        None
    } else {
        match lru_index(s.drop_last(), k) {
            Some(i) => Some(i),
            None => if s.last().0 == k {
                Some(s.len() - 1)
            } else {
                None
            },
        }
    }
}

/// The value stored under `k`.
pub open spec fn lru_value<V>(s: Seq<(u64, V)>, k: u64) -> Option<V> {
    match lru_index(s, k) {
        Some(i) => Some(s[i].1),
        None => None,
    }
}

/// `new` is `old` after storing `v` under `k` in a store that holds `cap`
/// entries: the entry goes to the front, replacing the old entry of `k`; a
/// new key at capacity evicts the least recently used entry.
pub open spec fn lru_put<V>(old: Seq<(u64, V)>, new: Seq<(u64, V)>, k: u64, v: V, cap: nat) -> bool {
    match lru_index(old, k) {
        Some(i) => new == seq![(k, v)] + old.remove(i),
        None => if old.len() < cap || old.len() == 0 {
            new == seq![(k, v)] + old
        } else {
            new == seq![(k, v)] + old.drop_last()
        },
    }
}

/// `new` is `old` after reading `k`: a present entry moves to the front.
pub open spec fn lru_touch<V>(old: Seq<(u64, V)>, new: Seq<(u64, V)>, k: u64) -> bool {
    match lru_index(old, k) {
        Some(i) => new == seq![old[i]] + old.remove(i),
        None => new == old,
    }
}

/// `new` is `old` without the entry of `k`.
pub open spec fn lru_pop<V>(old: Seq<(u64, V)>, new: Seq<(u64, V)>, k: u64) -> bool {
    match lru_index(old, k) {
        Some(i) => new == old.remove(i),
        None => new == old,
    }
}

/// The users kept, the most recently used first.
pub uninterp spec fn user_entries(c: LruCache<UserId, CachedUser>) -> Seq<(UserId, CachedUser)>;

/// The members of a guild kept, the most recently used first.
pub uninterp spec fn member_entries(c: LruCache<UserId, CachedMember>) -> Seq<(UserId, CachedMember)>;

/// The messages of a guild kept, the most recently used first.
pub uninterp spec fn message_entries(c: LruCache<MessageId, CachedMessage>) -> Seq<(MessageId, CachedMessage)>;

/// The number of users the store holds at most.
pub uninterp spec fn user_capacity(c: LruCache<UserId, CachedUser>) -> nat;

/// The number of members the store holds at most.
pub uninterp spec fn member_capacity(c: LruCache<UserId, CachedMember>) -> nat;

/// The number of messages the store holds at most.
pub uninterp spec fn message_capacity(c: LruCache<MessageId, CachedMessage>) -> nat;

/// Relies on `LruCache::new`: an empty store that holds at most `cap` entries.
#[verifier::external_body]
pub(crate) fn new_user_lru(cap: usize) -> (r: LruCache<UserId, CachedUser>)
    requires
        cap > 0,
    ensures
        user_capacity(r) == cap,
        user_entries(r) == Seq::<(UserId, CachedUser)>::empty(),
{
    LruCache::new(NonZeroUsize::new(cap).unwrap())
}

/// Relies on `LruCache::put`: the entry goes to the front; a new key at
/// capacity evicts the entry at the back.
#[verifier::external_body]
pub(crate) fn put_user_lru(c: &mut LruCache<UserId, CachedUser>, k: UserId, v: CachedUser)
    ensures
        lru_put(user_entries(*old(c)), user_entries(*final(c)), k, v, user_capacity(*old(c))),
        user_capacity(*final(c)) == user_capacity(*old(c)),
{
    c.put(k, v);
}

/// Relies on `LruCache::get`: a present entry moves to the front, and a
/// copy of its value is returned.
#[verifier::external_body]
pub(crate) fn get_user_lru(c: &mut LruCache<UserId, CachedUser>, k: UserId) -> (r: Option<CachedUser>)
    ensures
        lru_touch(user_entries(*old(c)), user_entries(*final(c)), k),
        user_capacity(*final(c)) == user_capacity(*old(c)),
        r == lru_value(user_entries(*old(c)), k),
{
    c.get(&k).cloned()
}

/// Relies on `LruCache::len`: the number of entries.
#[verifier::external_body]
pub(crate) fn user_lru_len(c: &LruCache<UserId, CachedUser>) -> (r: usize)
    ensures
        r == user_entries(*c).len(),
{
    c.len()
}

/// Relies on `LruCache::new`: an empty store that holds at most `cap` entries.
#[verifier::external_body]
pub(crate) fn new_member_lru(cap: usize) -> (r: LruCache<UserId, CachedMember>)
    requires
        cap > 0,
    ensures
        member_capacity(r) == cap,
        member_entries(r) == Seq::<(UserId, CachedMember)>::empty(),
{
    LruCache::new(NonZeroUsize::new(cap).unwrap())
}

/// Relies on `LruCache::put`: the entry goes to the front; a new key at
/// capacity evicts the entry at the back.
#[verifier::external_body]
pub(crate) fn put_member_lru(c: &mut LruCache<UserId, CachedMember>, k: UserId, v: CachedMember)
    ensures
        lru_put(member_entries(*old(c)), member_entries(*final(c)), k, v, member_capacity(*old(c))),
        member_capacity(*final(c)) == member_capacity(*old(c)),
{
    c.put(k, v);
}

/// Relies on `LruCache::get`: a present entry moves to the front, and a
/// copy of its value is returned.
#[verifier::external_body]
pub(crate) fn get_member_lru(c: &mut LruCache<UserId, CachedMember>, k: UserId) -> (r: Option<CachedMember>)
    ensures
        lru_touch(member_entries(*old(c)), member_entries(*final(c)), k),
        member_capacity(*final(c)) == member_capacity(*old(c)),
        match lru_value(member_entries(*old(c)), k) {
            Some(v) => r matches Some(m) && m.same_as(&v),
            None => r is None,
        },
{
    c.get(&k).cloned()
}

/// Relies on `LruCache::contains`: whether `k` is kept; the order is not
/// changed.
#[verifier::external_body]
pub(crate) fn member_lru_contains(c: &LruCache<UserId, CachedMember>, k: UserId) -> (r: bool)
    ensures
        r == lru_index(member_entries(*c), k) is Some,
{
    c.contains(&k)
}

/// Relies on `LruCache::pop`: removes the entry of `k`.
#[verifier::external_body]
pub(crate) fn pop_member_lru(c: &mut LruCache<UserId, CachedMember>, k: UserId)
    ensures
        lru_pop(member_entries(*old(c)), member_entries(*final(c)), k),
        member_capacity(*final(c)) == member_capacity(*old(c)),
{
    c.pop(&k);
}

/// Relies on `LruCache::len`: the number of entries.
#[verifier::external_body]
pub(crate) fn member_lru_len(c: &LruCache<UserId, CachedMember>) -> (r: usize)
    ensures
        r == member_entries(*c).len(),
{
    c.len()
}

/// Relies on `LruCache::new`: an empty store that holds at most `cap` entries.
#[verifier::external_body]
pub(crate) fn new_message_lru(cap: usize) -> (r: LruCache<MessageId, CachedMessage>)
    requires
        cap > 0,
    ensures
        message_capacity(r) == cap,
        message_entries(r) == Seq::<(MessageId, CachedMessage)>::empty(),
{
    LruCache::new(NonZeroUsize::new(cap).unwrap())
}

/// Relies on `LruCache::put`: the entry goes to the front; a new key at
/// capacity evicts the entry at the back.
#[verifier::external_body]
pub(crate) fn put_message_lru(c: &mut LruCache<MessageId, CachedMessage>, k: MessageId, v: CachedMessage)
    ensures
        lru_put(message_entries(*old(c)), message_entries(*final(c)), k, v, message_capacity(*old(c))),
        message_capacity(*final(c)) == message_capacity(*old(c)),
{
    c.put(k, v);
}

/// Relies on `LruCache::get`: a present entry moves to the front, and a
/// copy of its value is returned.
#[verifier::external_body]
pub(crate) fn get_message_lru(c: &mut LruCache<MessageId, CachedMessage>, k: MessageId) -> (r: Option<CachedMessage>)
    ensures
        lru_touch(message_entries(*old(c)), message_entries(*final(c)), k),
        message_capacity(*final(c)) == message_capacity(*old(c)),
        r == lru_value(message_entries(*old(c)), k),
{
    c.get(&k).cloned()
}

/// Relies on `LruCache::pop`: removes the entry of `k`.
#[verifier::external_body]
pub(crate) fn pop_message_lru(c: &mut LruCache<MessageId, CachedMessage>, k: MessageId)
    ensures
        lru_pop(message_entries(*old(c)), message_entries(*final(c)), k),
        message_capacity(*final(c)) == message_capacity(*old(c)),
{
    c.pop(&k);
}

/// Relies on `LruCache::len`: the number of entries.
#[verifier::external_body]
pub(crate) fn message_lru_len(c: &LruCache<MessageId, CachedMessage>) -> (r: usize)
    ensures
        r == message_entries(*c).len(),
{
    c.len()
}

pub proof fn lemma_index_front<V>(k: u64, v: V, rest: Seq<(u64, V)>)
    ensures
        lru_index(seq![(k, v)] + rest, k) == Some(0int),
    decreases rest.len(),
{
    let s = seq![(k, v)] + rest;
    if rest.len() == 0 {
        assert(s.drop_last() =~= Seq::<(u64, V)>::empty());
        assert(lru_index(s.drop_last(), k) is None);
        assert(s.last() == (k, v));
    } else {
        lemma_index_front(k, v, rest.drop_last());
        assert(s.drop_last() =~= seq![(k, v)] + rest.drop_last());
    }
}

/// Whatever the store held and whatever it evicted, right after storing `v`
/// under `k` a read of `k` finds `v`.
pub proof fn lemma_put_then_get<V>(old: Seq<(u64, V)>, new: Seq<(u64, V)>, k: u64, v: V, cap: nat)
    requires
        lru_put(old, new, k, v, cap),
    ensures
        lru_value(new, k) == Some(v),
{
    match lru_index(old, k) {
        Some(i) => lemma_index_front(k, v, old.remove(i)),
        None => {
            lemma_index_front(k, v, old);
            if old.len() > 0 {
                lemma_index_front(k, v, old.drop_last());
            }
        },
    }
}

proof fn lemma_index_in_range<V>(s: Seq<(u64, V)>, k: u64)
    ensures
        lru_index(s, k) matches Some(i) ==> 0 <= i < s.len() && s[i].0 == k,
    decreases s.len(),
{
    if s.len() > 0 {
        lemma_index_in_range(s.drop_last(), k);
    }
}

/// A store never holds more than its capacity: storing, reading and
/// removing keep the number of entries within it.
pub proof fn lemma_lru_bounded<V>(old: Seq<(u64, V)>, new: Seq<(u64, V)>, k: u64, v: V, cap: nat)
    requires
        old.len() <= cap,
        cap > 0,
    ensures
        lru_put(old, new, k, v, cap) ==> new.len() <= cap,
        lru_touch(old, new, k) ==> new.len() == old.len(),
        lru_pop(old, new, k) ==> new.len() <= old.len(),
{
    lemma_index_in_range(old, k);
}

proof fn lemma_index_char<V>(s: Seq<(u64, V)>, k: u64, p: int)
    requires
        0 <= p < s.len(),
        s[p].0 == k,
        forall|q: int| 0 <= q < p ==> (#[trigger] s[q]).0 != k,
    ensures
        lru_index(s, k) == Some(p),
    decreases s.len(),
{
    if p < s.len() - 1 {
        assert forall|q: int| 0 <= q < p implies (#[trigger] s.drop_last()[q]).0 != k by {
            assert(s.drop_last()[q] == s[q]);
        }
        lemma_index_char(s.drop_last(), k, p);
    } else {
        lemma_index_in_range(s.drop_last(), k);
        if lru_index(s.drop_last(), k) is Some {
            let q = lru_index(s.drop_last(), k)->0;
            assert(s[q].0 == k);
        }
    }
}

proof fn lemma_index_first<V>(s: Seq<(u64, V)>, k: u64)
    ensures
        lru_index(s, k) matches Some(p) ==> forall|q: int| 0 <= q < p ==> (#[trigger] s[q]).0 != k,
    decreases s.len(),
{
    if s.len() > 0 {
        lemma_index_first(s.drop_last(), k);
        lemma_index_in_range(s.drop_last(), k);
        if let Some(p) = lru_index(s, k) {
            assert forall|q: int| 0 <= q < p implies (#[trigger] s[q]).0 != k by {
                if lru_index(s.drop_last(), k) is None {
                    lemma_absent(s.drop_last(), k);
                    assert(s.drop_last()[q] == s[q]);
                } else {
                    assert(s.drop_last()[q] == s[q]);
                }
            }
        }
    }
}

proof fn lemma_absent<V>(s: Seq<(u64, V)>, k: u64)
    requires
        lru_index(s, k) is None,
    ensures
        forall|q: int| 0 <= q < s.len() ==> (#[trigger] s[q]).0 != k,
    decreases s.len(),
{
    if s.len() > 0 {
        lemma_absent(s.drop_last(), k);
        assert forall|q: int| 0 <= q < s.len() implies (#[trigger] s[q]).0 != k by {
            if q < s.len() - 1 {
                assert(s.drop_last()[q] == s[q]);
            }
        }
    }
}

/// Storing another key moves an entry back by at most one place, and keeps
/// it while it is not at the back of a full store.
proof fn lemma_put_other<V>(old: Seq<(u64, V)>, new: Seq<(u64, V)>, j: u64, v: V, cap: nat, k: u64, p: int)
    requires
        lru_put(old, new, j, v, cap),
        j != k,
        lru_index(old, k) == Some(p),
        p + 1 < cap,
        old.len() <= cap,
    ensures
        lru_index(new, k) matches Some(p2) && p2 <= p + 1 && new[p2].1 == old[p].1,
{
    lemma_index_in_range(old, k);
    lemma_index_first(old, k);
    lemma_index_in_range(old, j);
    let p2 = match lru_index(old, j) {
        Some(i) => if i < p { p } else { p + 1 },
        None => p + 1,
    };
    assert(new[p2] == old[p]);
    assert forall|q: int| 0 <= q < p2 implies (#[trigger] new[q]).0 != k by {
        if q > 0 {
            match lru_index(old, j) {
                Some(i) => {
                    if q - 1 < i {
                        assert(new[q] == old[q - 1]);
                    } else {
                        assert(new[q] == old[q]);
                    }
                },
                None => {
                    assert(new[q] == old[q - 1]);
                },
            }
        }
    }
    lemma_index_char(new, k, p2);
}

/// An entry at place `p` outlives any `n` stores of other keys while
/// `p + n` stays below the capacity.
pub proof fn lemma_survives_other_puts<V>(old: Seq<(u64, V)>, new: Seq<(u64, V)>, es: Seq<(u64, V)>, cap: nat, k: u64, p: int)
    requires
        crate::cache::lru_put_all(old, new, es, cap),
        forall|i: int| 0 <= i < es.len() ==> (#[trigger] es[i]).0 != k,
        lru_index(old, k) == Some(p),
        p + es.len() < cap,
        old.len() <= cap,
    ensures
        lru_index(new, k) matches Some(p2) && p2 <= p + es.len() && new[p2].1 == old[p].1,
    decreases es.len(),
{
    lemma_index_in_range(old, k);
    if es.len() > 0 {
        let mid = choose|mid: Seq<(u64, V)>|
            crate::cache::lru_put_all(old, mid, es.drop_last(), cap) && #[trigger] lru_put(mid, new, es.last().0, es.last().1, cap);
        assert forall|i: int| 0 <= i < es.drop_last().len() implies (#[trigger] es.drop_last()[i]).0 != k by {
            assert(es.drop_last()[i] == es[i]);
        }
        lemma_survives_other_puts(old, mid, es.drop_last(), cap, k, p);
        let pm = lru_index(mid, k)->0;
        lemma_mid_bounded(old, mid, es.drop_last(), cap);
        assert(es.last().0 != k);
        lemma_put_other(mid, new, es.last().0, es.last().1, cap, k, pm);
    }
}

/// Stores keep a store within its capacity.
pub proof fn lemma_mid_bounded<V>(old: Seq<(u64, V)>, new: Seq<(u64, V)>, es: Seq<(u64, V)>, cap: nat)
    requires
        crate::cache::lru_put_all(old, new, es, cap),
        old.len() <= cap,
        cap > 0,
    ensures
        new.len() <= cap,
    decreases es.len(),
{
    if es.len() > 0 {
        let mid = choose|mid: Seq<(u64, V)>|
            crate::cache::lru_put_all(old, mid, es.drop_last(), cap) && #[trigger] lru_put(mid, new, es.last().0, es.last().1, cap);
        lemma_mid_bounded(old, mid, es.drop_last(), cap);
        lemma_lru_bounded(mid, new, es.last().0, es.last().1, cap);
    }
}

} // verus!

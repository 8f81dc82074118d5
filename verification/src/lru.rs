//! Least Recently Used cache.
//!
//! The entries live in a store of `cap` slots, chained from the most to the
//! least recently used one between a head and a tail node; a hash table maps
//! each key's hash to the slot that holds it. When the store is full, a new
//! key takes the slot of the least recently used entry.

use core::hash::{BuildHasher, Hash};
use hashbrown::{DefaultHashBuilder, HashTable};
use vstd::laws_eq::obeys_concrete_eq;
use vstd::multiset::Multiset;
use vstd::prelude::*;

verus! {

/// A hashbrown `HashTable` of slot numbers, each stored under the hash of
/// the key in that slot. Its contents are described by `table_items` and its
/// capacity by `table_limit`; it is only reached through the `table_*`
/// functions below.
#[verifier::external_body]
pub struct SlotTable {
    table: HashTable<usize>,
}

#[verifier::external_type_specification]
#[verifier::external_body]
pub struct ExDefaultHashBuilder(DefaultHashBuilder);

/// What a table of slot numbers holds: each slot number with the hash it
/// was inserted under.
pub uninterp spec fn table_items(t: SlotTable) -> Multiset<(u64, usize)>;

/// The capacity a table was made with.
pub uninterp spec fn table_limit(t: SlotTable) -> nat;

/// An entry of the cache: its key, its value and the hash of its key.
pub struct Slot<K, V> {
    pub key: K,
    pub value: V,
    pub hash: u64,
}

/// Slot `i` holds `key` under `hash`.
fn slot_matches<K: PartialEq, V>(slots: &Vec<Slot<K, V>>, i: usize, hash: u64, key: &K) -> (r: bool)
    requires
        i < slots@.len(),
        obeys_concrete_eq::<K>(),
    ensures
        r == (slots@[i as int].hash == hash && slots@[i as int].key == *key),
{
    proof {
        reveal(obeys_concrete_eq);
    }
    slots[i].hash == hash && slots[i].key == *key
}

/// The hash slot `i` was stored under.
fn slot_hash<K, V>(slots: &Vec<Slot<K, V>>, i: usize) -> (r: u64)
    requires
        i < slots@.len(),
    ensures
        r == slots@[i as int].hash,
{
    slots[i].hash
}

/// `HashTable::with_capacity`: an empty table made with room for `cap`
/// items. Up to `isize::MAX / 64` the layout computation cannot overflow, so
/// the call does not panic.
#[verifier::external_body]
fn table_with_capacity(cap: usize) -> (t: SlotTable)
    requires
        cap <= isize::MAX / 64,
    ensures
        table_items(t) =~= Multiset::<(u64, usize)>::empty(),
        table_limit(t) == cap,
{
    SlotTable { table: HashTable::with_capacity(cap) }
}

/// `HashTable::len`: the number of items.
#[verifier::external_body]
fn table_len(t: &SlotTable) -> (r: usize)
    ensures
        r == table_items(*t).len(),
{
    t.table.len()
}

/// `HashTable::clear`: removes every item; the capacity stays.
#[verifier::external_body]
fn table_clear(t: &mut SlotTable)
    ensures
        table_items(*final(t)) =~= Multiset::<(u64, usize)>::empty(),
        table_limit(*final(t)) == table_limit(*old(t)),
{
    t.table.clear()
}

/// `HashTable::find` with an equality that checks a slot's stored hash and
/// key. Every item sits where the hash stored in its slot puts it (see
/// `table_insert`); the search returns an item for which the equality
/// holds, and returns `None` only when no item stored under `hash`
/// satisfies it.
#[verifier::external_body]
fn table_find<K: PartialEq, V>(t: &SlotTable, hash: u64, slots: &Vec<Slot<K, V>>, key: &K) -> (r: Option<usize>)
    requires
        obeys_concrete_eq::<K>(),
        forall|p: (u64, usize)| #[trigger] table_items(*t).contains(p) ==> p.1 < slots@.len()
            && slots@[p.1 as int].hash == p.0,
    ensures
        r matches Some(i) ==> table_items(*t).contains((slots@[i as int].hash, i)) && i < slots@.len()
            && slots@[i as int].hash == hash && slots@[i as int].key == *key,
        r is None ==> forall|i: usize| #[trigger] table_items(*t).contains((hash, i))
            ==> !(slots@[i as int].hash == hash && slots@[i as int].key == *key),
{
    t.table.find(hash, |i: &usize| slot_matches(slots, *i, hash, key)).copied()
}

/// `HashTable::find_entry` followed by `OccupiedEntry::remove`, with the
/// same equality as `table_find`: removes one item for which it holds, if
/// the search finds one; the capacity stays.
#[verifier::external_body]
fn table_remove<K: PartialEq, V>(t: &mut SlotTable, hash: u64, slots: &Vec<Slot<K, V>>, key: &K) -> (r: Option<usize>)
    requires
        obeys_concrete_eq::<K>(),
        forall|p: (u64, usize)| #[trigger] table_items(*old(t)).contains(p) ==> p.1 < slots@.len()
            && slots@[p.1 as int].hash == p.0,
    ensures
        table_limit(*final(t)) == table_limit(*old(t)),
        r matches Some(i) ==> table_items(*old(t)).contains((slots@[i as int].hash, i)) && i < slots@.len()
            && slots@[i as int].hash == hash && slots@[i as int].key == *key
            && table_items(*final(t)) =~= table_items(*old(t)).remove((slots@[i as int].hash, i)),
        r is None ==> table_items(*final(t)) == table_items(*old(t)) && forall|i: usize|
            #[trigger] table_items(*old(t)).contains((hash, i)) ==> !(slots@[i as int].hash == hash
                && slots@[i as int].key == *key),
{
    match t.table.find_entry(hash, |i: &usize| slot_matches(slots, *i, hash, key)) {
        Ok(entry) => Some(entry.remove().0),
        Err(_) => None,
    }
}

/// `HashTable::insert_unique` of slot `i` under `hash`, with a hasher that
/// reads the hash stored in a slot. Every item is stored under the hash that
/// hasher gives for it, so moving items while growing keeps them findable.
/// Below the capacity the table was made with, growing cannot overflow.
#[verifier::external_body]
fn table_insert<K, V>(t: &mut SlotTable, hash: u64, i: usize, slots: &Vec<Slot<K, V>>)
    requires
        i < slots@.len(),
        slots@[i as int].hash == hash,
        forall|p: (u64, usize)| #[trigger] table_items(*old(t)).contains(p) ==> p.1 < slots@.len()
            && slots@[p.1 as int].hash == p.0,
        table_items(*old(t)).len() < table_limit(*old(t)),
        table_limit(*old(t)) <= isize::MAX / 64,
    ensures
        table_items(*final(t)) =~= table_items(*old(t)).insert((hash, i)),
        table_limit(*final(t)) == table_limit(*old(t)),
{
    t.table.insert_unique(hash, i, |j: &usize| slot_hash(slots, *j));
}

/// `BuildHasher::hash_one`: the hash of `k`. What it gives is not stated:
/// the default builder seeds each map at random.
#[verifier::external_body]
fn hash_key<S: BuildHasher, K: Hash>(s: &S, k: &K) -> u64 {
    s.hash_one(k)
}

/// `DefaultHashBuilder::default`: a hash builder with a fresh random seed.
#[verifier::external_body]
fn default_hasher() -> DefaultHashBuilder {
    DefaultHashBuilder::default()
}

/// Node of position `p` of `order`: the head before the first position, the
/// tail after the last, slot `order[p]` at node `order[p] + 2`.
pub open spec fn node_at(order: Seq<usize>, p: int) -> int {
    if p < 0 {
        0
    } else if p < order.len() {
        order[p] + 2
    } else {
        1
    }
}

/// The nodes of positions `p` and `p + 1` point at each other.
pub open spec fn link_at(order: Seq<usize>, prev: Seq<usize>, next: Seq<usize>, p: int) -> bool {
    &&& next[node_at(order, p)] == node_at(order, p + 1)
    &&& prev[node_at(order, p + 1)] == node_at(order, p)
}

/// `prev` and `next` chain the head, the slots in `order` and the tail.
pub open spec fn links_ok(order: Seq<usize>, prev: Seq<usize>, next: Seq<usize>) -> bool {
    forall|p: int| -1 <= p < order.len() ==> #[trigger] link_at(order, prev, next, p)
}

/// No slot occurs twice in `order`.
pub open spec fn injective(order: Seq<usize>) -> bool {
    forall|p: int, q: int| 0 <= p < q < order.len() ==> order[p] != order[q]
}

/// `order` lists each slot of `0..n` once.
pub open spec fn is_order(order: Seq<usize>, n: nat) -> bool {
    &&& order.len() == n
    &&& forall|p: int| 0 <= p < n ==> #[trigger] order[p] < n
    &&& injective(order)
    &&& forall|i: int| 0 <= i < n ==> #[trigger] occurs(order, i)
}

/// Slot `i` has a position in `order`.
pub open spec fn occurs(order: Seq<usize>, i: int) -> bool {
    exists|p: int| 0 <= p < order.len() && order[p] == i
}

/// The entries, most recently used first: hash, key and value.
pub open spec fn entries_of<K, V>(order: Seq<usize>, slots: Seq<Slot<K, V>>) -> Seq<(u64, K, V)> {
    Seq::new(order.len(), |p: int| (slots[order[p] as int].hash, slots[order[p] as int].key, slots[order[p] as int].value))
}

/// No two entries have both the same hash and the same key.
pub open spec fn distinct_entries<K, V>(e: Seq<(u64, K, V)>) -> bool {
    forall|p: int, q: int| 0 <= p < q < e.len() ==> !(e[p].0 == e[q].0 && e[p].1 == e[q].1)
}

/// Some entry has this hash and key.
pub open spec fn holds<K, V>(e: Seq<(u64, K, V)>, hash: u64, key: K) -> bool {
    exists|p: int| 0 <= p < e.len() && e[p].0 == hash && e[p].1 == key
}

/// Position of the entry with this hash and key.
pub open spec fn position<K, V>(e: Seq<(u64, K, V)>, hash: u64, key: K) -> int {
    choose|p: int| 0 <= p < e.len() && e[p].0 == hash && e[p].1 == key
}

/// The entries after entry `p` is used: it moves to the front.
pub open spec fn touched<K, V>(e: Seq<(u64, K, V)>, p: int) -> Seq<(u64, K, V)> {
    seq![e[p]] + e.remove(p)
}

/// The value a lookup of `key` under `hash` gives.
pub open spec fn looked_up<K, V>(e: Seq<(u64, K, V)>, hash: u64, key: K) -> Option<V> {
    if holds(e, hash, key) {
        Some(e[position(e, hash, key)].2)
    } else {
        None
    }
}

/// The entries after a lookup of `key` under `hash`.
pub open spec fn after_lookup<K, V>(e: Seq<(u64, K, V)>, hash: u64, key: K) -> Seq<(u64, K, V)> {
    if holds(e, hash, key) {
        touched(e, position(e, hash, key))
    } else {
        e
    }
}

/// The entries after inserting `key` and `value` under `hash` into a cache
/// of `cap` entries: an entry with that hash and key gets the value and
/// moves to the front; otherwise a new entry goes in front, and when the
/// cache is full the least recently used entry leaves.
pub open spec fn after_insert<K, V>(e: Seq<(u64, K, V)>, cap: nat, hash: u64, key: K, value: V) -> Seq<(u64, K, V)> {
    if holds(e, hash, key) {
        touched(e, position(e, hash, key)).update(0, (hash, key, value))
    } else if e.len() < cap {
        seq![(hash, key, value)] + e
    } else {
        seq![(hash, key, value)] + e.drop_last()
    }
}

/// Different positions, head and tail included, have different nodes.
proof fn lemma_nodes_differ(o: Seq<usize>, x: int, y: int)
    requires
        injective(o),
        -1 <= x <= o.len(),
        -1 <= y <= o.len(),
        x != y,
    ensures
        node_at(o, x) != node_at(o, y),
{
    if 0 <= x < o.len() && 0 <= y < o.len() {
        if x < y {
            assert(o[x] != o[y]);
        } else {
            assert(o[y] != o[x]);
        }
    }
}

/// Taking position `q` out of the chain: its neighbours point at each other.
proof fn lemma_unlink(o: Seq<usize>, prev: Seq<usize>, next: Seq<usize>, q: int, prev2: Seq<usize>, next2: Seq<usize>)
    requires
        links_ok(o, prev, next),
        injective(o),
        0 <= q < o.len(),
        prev.len() == next.len(),
        2 <= prev.len() <= usize::MAX,
        forall|p: int| 0 <= p < o.len() ==> o[p] + 2 < prev.len(),
        next2 == next.update(node_at(o, q - 1), node_at(o, q + 1) as usize),
        prev2 == prev.update(node_at(o, q + 1), node_at(o, q - 1) as usize),
    ensures
        links_ok(o.remove(q), prev2, next2),
{
    let o2 = o.remove(q);
    assert forall|p: int| -1 <= p < o2.len() implies #[trigger] link_at(o2, prev2, next2, p) by {
        if p < q - 1 {
            assert(link_at(o, prev, next, p));
            assert(node_at(o2, p) == node_at(o, p));
            assert(node_at(o2, p + 1) == node_at(o, p + 1));
            lemma_nodes_differ(o, p, q - 1);
            lemma_nodes_differ(o, p + 1, q + 1);
        } else if p == q - 1 {
            assert(node_at(o2, p) == node_at(o, q - 1));
            assert(node_at(o2, p + 1) == node_at(o, q + 1));
        } else {
            assert(link_at(o, prev, next, p + 1));
            assert(node_at(o2, p) == node_at(o, p + 1));
            assert(node_at(o2, p + 1) == node_at(o, p + 2));
            lemma_nodes_differ(o, p + 1, q - 1);
            lemma_nodes_differ(o, p + 2, q + 1);
        }
    }
}

/// Putting slot `i` between the head and the first position.
proof fn lemma_push_front(o: Seq<usize>, prev: Seq<usize>, next: Seq<usize>, i: usize, prev2: Seq<usize>, next2: Seq<usize>)
    requires
        links_ok(o, prev, next),
        injective(o),
        forall|p: int| 0 <= p < o.len() ==> o[p] != i,
        i + 2 < prev.len() <= usize::MAX,
        prev.len() == next.len(),
        forall|p: int| 0 <= p < o.len() ==> o[p] + 2 < prev.len(),
        next2 == next.update(0, (i + 2) as usize).update(i + 2, node_at(o, 0) as usize),
        prev2 == prev.update(node_at(o, 0), (i + 2) as usize).update(i + 2, 0usize),
    ensures
        links_ok(seq![i] + o, prev2, next2),
{
    let o2 = seq![i] + o;
    assert forall|p: int| -1 <= p < o2.len() implies #[trigger] link_at(o2, prev2, next2, p) by {
        if p == -1 {
            assert(node_at(o2, 0) == i + 2);
        } else if p == 0 {
            assert(node_at(o2, 0) == i + 2);
            assert(node_at(o2, 1) == node_at(o, 0));
        } else {
            assert(link_at(o, prev, next, p - 1));
            assert(node_at(o2, p) == node_at(o, p - 1));
            assert(node_at(o2, p + 1) == node_at(o, p));
            lemma_nodes_differ(o, p, 0);
        }
    }
}

/// Moving position `q` to the front keeps an order of the same slots.
proof fn lemma_touch_order(o: Seq<usize>, n: nat, q: int)
    requires
        is_order(o, n),
        0 <= q < n,
    ensures
        is_order(seq![o[q]] + o.remove(q), n),
        forall|p: int| 0 <= p < o.remove(q).len() ==> o.remove(q)[p] != o[q],
        injective(o.remove(q)),
{
    let o1 = o.remove(q);
    let o2 = seq![o[q]] + o1;
    assert forall|p: int| 0 <= p < o1.len() implies o1[p] != o[q] by {
        if p < q {
            assert(o1[p] == o[p]);
        } else {
            assert(o1[p] == o[p + 1]);
        }
    }
    assert forall|p: int, r: int| 0 <= p < r < o1.len() implies o1[p] != o1[r] by {
        let a = if p < q { p } else { p + 1 };
        let b = if r < q { r } else { r + 1 };
        assert(o1[p] == o[a]);
        assert(o1[r] == o[b]);
    }
    assert forall|p: int, r: int| 0 <= p < r < o2.len() implies o2[p] != o2[r] by {
        if p == 0 {
            assert(o2[r] == o1[r - 1]);
        } else {
            assert(o2[p] == o1[p - 1]);
            assert(o2[r] == o1[r - 1]);
        }
    }
    assert forall|p: int| 0 <= p < n implies #[trigger] o2[p] < n by {
        if p > 0 {
            let a = if p - 1 < q { p - 1 } else { p };
            assert(o2[p] == o[a]);
        }
    }
    assert forall|i: int| 0 <= i < n implies #[trigger] occurs(o2, i) by {
        assert(occurs(o, i));
        let w = choose|w: int| 0 <= w < o.len() && o[w] == i;
        if w == q {
            assert(o2[0] == i);
        } else if w < q {
            assert(o2[w + 1] == i);
        } else {
            assert(o2[w] == i);
        }
    }
}

/// A new slot `n` in front of an order of `0..n`.
proof fn lemma_push_order(o: Seq<usize>, n: usize)
    requires
        is_order(o, n as nat),
    ensures
        is_order(seq![n] + o, (n + 1) as nat),
        forall|p: int| 0 <= p < o.len() ==> o[p] != n,
{
    let o2 = seq![n] + o;
    assert forall|p: int, r: int| 0 <= p < r < o2.len() implies o2[p] != o2[r] by {
        if p == 0 {
            assert(o2[r] == o[r - 1]);
        } else {
            assert(o2[p] == o[p - 1]);
            assert(o2[r] == o[r - 1]);
        }
    }
    assert forall|p: int| 0 <= p < n + 1 implies #[trigger] o2[p] < n + 1 by {
        if p > 0 {
            assert(o2[p] == o[p - 1]);
        }
    }
    assert forall|i: int| 0 <= i < n + 1 implies #[trigger] occurs(o2, i) by {
        if i == n {
            assert(o2[0] == i);
        } else {
            assert(occurs(o, i));
            let w = choose|w: int| 0 <= w < o.len() && o[w] == i;
            assert(o2[w + 1] == i);
        }
    }
}

/// Takes the node `b` of position `q` out of the chain.
fn unlink(prev: &mut Vec<usize>, next: &mut Vec<usize>, b: usize, Ghost(o): Ghost<Seq<usize>>, Ghost(q): Ghost<int>)
    requires
        links_ok(o, old(prev)@, old(next)@),
        injective(o),
        0 <= q < o.len(),
        b == o[q] + 2,
        old(prev)@.len() == old(next)@.len(),
        forall|p: int| 0 <= p < o.len() ==> o[p] + 2 < old(prev)@.len(),
        2 <= old(prev)@.len(),
    ensures
        final(prev)@.len() == old(prev)@.len(),
        final(next)@.len() == old(next)@.len(),
        links_ok(o.remove(q), final(prev)@, final(next)@),
{
    proof {
        assert(link_at(o, prev@, next@, q - 1));
        assert(link_at(o, prev@, next@, q));
        assert(node_at(o, q) == b);
    }
    let _len = prev.len();
    let a = prev[b];
    let c = next[b];
    next[a] = c;
    prev[c] = a;
    proof {
        lemma_unlink(o, old(prev)@, old(next)@, q, prev@, next@);
    }
}

/// Puts slot `i` at the front of the chain.
fn push_front(prev: &mut Vec<usize>, next: &mut Vec<usize>, i: usize, Ghost(o): Ghost<Seq<usize>>)
    requires
        links_ok(o, old(prev)@, old(next)@),
        injective(o),
        forall|p: int| 0 <= p < o.len() ==> o[p] != i,
        old(prev)@.len() == old(next)@.len(),
        forall|p: int| 0 <= p < o.len() ==> o[p] + 2 < old(prev)@.len(),
        i + 2 < old(prev)@.len(),
        i + 2 <= usize::MAX,
    ensures
        final(prev)@.len() == old(prev)@.len(),
        final(next)@.len() == old(next)@.len(),
        links_ok(seq![i] + o, final(prev)@, final(next)@),
{
    proof {
        assert(link_at(o, prev@, next@, -1));
    }
    let _len = prev.len();
    let b = i + 2;
    let c = next[0];
    next[0] = b;
    next[b] = c;
    prev[c] = b;
    prev[b] = 0;
    proof {
        lemma_push_front(o, old(prev)@, old(next)@, i, prev@, next@);
    }
}

/// In entries without repeats, the entry with a given hash and key is at
/// the one position that has them.
proof fn lemma_unique_position<K, V>(e: Seq<(u64, K, V)>, hash: u64, key: K, p: int)
    requires
        distinct_entries(e),
        0 <= p < e.len(),
        e[p].0 == hash,
        e[p].1 == key,
    ensures
        holds(e, hash, key),
        position(e, hash, key) == p,
{
    let r = position(e, hash, key);
    if r != p {
        if r < p {
            assert(!(e[r].0 == e[p].0 && e[r].1 == e[p].1));
        } else {
            assert(!(e[p].0 == e[r].0 && e[p].1 == e[r].1));
        }
    }
}

/// Inserting keeps the entries without repeats and within the capacity, and
/// puts the inserted entry first.
pub proof fn law_insert_bounded<K, V>(e: Seq<(u64, K, V)>, cap: nat, hash: u64, key: K, value: V)
    requires
        distinct_entries(e),
        e.len() <= cap,
        0 < cap,
    ensures
        distinct_entries(after_insert(e, cap, hash, key, value)),
        after_insert(e, cap, hash, key, value).len() <= cap,
        after_insert(e, cap, hash, key, value)[0] == (hash, key, value),
{
    let e2 = after_insert(e, cap, hash, key, value);
    let rest = if holds(e, hash, key) {
        e.remove(position(e, hash, key))
    } else if e.len() < cap {
        e
    } else {
        e.drop_last()
    };
    if holds(e, hash, key) {
        let q = position(e, hash, key);
        assert(e2 =~= seq![(hash, key, value)] + rest);
        assert forall|a: int| 0 <= a < rest.len() implies !(#[trigger] rest[a].0 == hash && rest[a].1 == key) by {
            let b = if a < q { a } else { a + 1 };
            assert(rest[a] == e[b]);
            if b < q {
                assert(!(e[b].0 == e[q].0 && e[b].1 == e[q].1));
            } else {
                assert(!(e[q].0 == e[b].0 && e[q].1 == e[b].1));
            }
        }
        assert forall|a: int, b: int| 0 <= a < b < rest.len() implies !(rest[a].0 == rest[b].0 && rest[a].1 == rest[b].1) by {
            let a1 = if a < q { a } else { a + 1 };
            let b1 = if b < q { b } else { b + 1 };
            assert(rest[a] == e[a1]);
            assert(rest[b] == e[b1]);
        }
    } else {
        assert(e2 =~= seq![(hash, key, value)] + rest);
        assert forall|a: int| 0 <= a < rest.len() implies !(#[trigger] rest[a].0 == hash && rest[a].1 == key) by {
            assert(rest[a] == e[a]);
        }
        assert forall|a: int, b: int| 0 <= a < b < rest.len() implies !(rest[a].0 == rest[b].0 && rest[a].1 == rest[b].1) by {
            assert(rest[a] == e[a]);
            assert(rest[b] == e[b]);
        }
    }
    assert forall|a: int, b: int| 0 <= a < b < e2.len() implies !(e2[a].0 == e2[b].0 && e2[a].1 == e2[b].1) by {
        assert(e2[b] == rest[b - 1]);
        if a > 0 {
            assert(e2[a] == rest[a - 1]);
        }
    }
}

/// A lookup right after an insert of the same hash and key gives the
/// inserted value.
pub proof fn law_lookup_after_insert<K, V>(e: Seq<(u64, K, V)>, cap: nat, hash: u64, key: K, value: V)
    requires
        distinct_entries(e),
        e.len() <= cap,
        0 < cap,
    ensures
        looked_up(after_insert(e, cap, hash, key, value), hash, key) == Some(value),
        after_lookup(after_insert(e, cap, hash, key, value), hash, key) == after_insert(e, cap, hash, key, value),
{
    law_insert_bounded(e, cap, hash, key, value);
    let e2 = after_insert(e, cap, hash, key, value);
    lemma_unique_position(e2, hash, key, 0);
    assert(touched(e2, 0) =~= e2);
}

/// An insert leaves the lookup of any other hash and key as it was, unless
/// it is the least recently used entry that a full cache lets go.
pub proof fn law_insert_keeps_others<K, V>(e: Seq<(u64, K, V)>, cap: nat, hash: u64, key: K, value: V, h2: u64, k2: K)
    requires
        distinct_entries(e),
        e.len() <= cap,
        0 < cap,
        !(h2 == hash && k2 == key),
        !(!holds(e, hash, key) && e.len() == cap && e.last().0 == h2 && e.last().1 == k2),
    ensures
        looked_up(after_insert(e, cap, hash, key, value), h2, k2) == looked_up(e, h2, k2),
{
    law_insert_bounded(e, cap, hash, key, value);
    let e2 = after_insert(e, cap, hash, key, value);
    if holds(e, h2, k2) {
        let p = position(e, h2, k2);
        lemma_unique_position(e, h2, k2, p);
        let p2 = if holds(e, hash, key) {
            let q = position(e, hash, key);
            if p < q { p + 1 } else { p }
        } else {
            p + 1
        };
        if holds(e, hash, key) {
            let q = position(e, hash, key);
            assert(p != q);
        } else if e.len() == cap {
            assert(p != e.len() - 1);
        }
        assert(e2[p2] == e[p]);
        lemma_unique_position(e2, h2, k2, p2);
    } else {
        if holds(e2, h2, k2) {
            let p2 = position(e2, h2, k2);
            assert(p2 != 0);
            let p = if holds(e, hash, key) {
                let q = position(e, hash, key);
                if p2 - 1 < q { p2 - 1 } else { p2 }
            } else {
                p2 - 1
            };
            assert(e2[p2] == e[p]);
            assert(false);
        }
    }
}

/// A lookup that finds nothing leaves the entries as they were; one that
/// finds an entry moves it to the front and keeps all entries.
pub proof fn law_lookup_keeps_entries<K, V>(e: Seq<(u64, K, V)>, hash: u64, key: K)
    ensures
        looked_up(e, hash, key) is None ==> after_lookup(e, hash, key) == e,
        after_lookup(e, hash, key).to_multiset() == e.to_multiset(),
        holds(e, hash, key) ==> after_lookup(e, hash, key)[0].0 == hash && after_lookup(e, hash, key)[0].1 == key,
{
    if holds(e, hash, key) {
        let q = position(e, hash, key);
        let e2 = touched(e, q);
        vstd::seq_lib::lemma_seq_union_to_multiset_commutative(seq![e[q]], e.remove(q));
        assert(e.remove(q) + seq![e[q]] =~= e.remove(q).push(e[q]));
        assert(e =~= e.subrange(0, q) + e.subrange(q, e.len() as int));
        vstd::seq_lib::lemma_multiset_commutative(e.subrange(0, q), e.subrange(q, e.len() as int));
        assert(e.remove(q) =~= e.subrange(0, q) + e.subrange(q + 1, e.len() as int));
        vstd::seq_lib::lemma_multiset_commutative(e.subrange(0, q), e.subrange(q + 1, e.len() as int));
        assert(e.subrange(q, e.len() as int) =~= seq![e[q]] + e.subrange(q + 1, e.len() as int));
        vstd::seq_lib::lemma_multiset_commutative(seq![e[q]], e.subrange(q + 1, e.len() as int));
        vstd::seq_lib::lemma_multiset_commutative(seq![e[q]], e.remove(q));
    }
}

/// Least Recently Used hash map.
#[verifier::reject_recursive_types(K)]
#[verifier::reject_recursive_types(V)]
pub struct LRUMap<K, V, S = DefaultHashBuilder> {
    memory: SlotTable,
    cap: usize,
    slots: Vec<Slot<K, V>>,
    prev: Vec<usize>,
    next: Vec<usize>,
    hasher: S,
    order: Ghost<Seq<usize>>,
}

impl<K, V, S> LRUMap<K, V, S> {
    /// The entries, most recently used first.
    pub closed spec fn entries(&self) -> Seq<(u64, K, V)> {
        entries_of(self.order@, self.slots@)
    }

    /// The most entries the cache keeps.
    pub closed spec fn capacity(&self) -> nat {
        self.cap as nat
    }

    pub closed spec fn wf(&self) -> bool {
        let n = self.slots@.len();
        let items = table_items(self.memory);
        &&& 0 < self.cap <= isize::MAX / 64
        &&& n <= self.cap
        &&& is_order(self.order@, n)
        &&& self.prev@.len() == n + 2
        &&& self.next@.len() == n + 2
        &&& links_ok(self.order@, self.prev@, self.next@)
        &&& forall|p: (u64, usize)| #[trigger] items.count(p) == if p.1 < n && self.slots@[p.1 as int].hash == p.0 { 1nat } else { 0nat }
        &&& items.len() == n
        &&& table_limit(self.memory) == self.cap
        &&& forall|i: int, j: int| 0 <= i < j < n ==> !(self.slots@[i].hash == self.slots@[j].hash
            && self.slots@[i].key == self.slots@[j].key)
    }

    /// A cache of `cap` entries that hashes keys with `hasher`.
    pub fn with_capacity_and_hasher(cap: usize, hasher: S) -> (m: Self)
        requires
            0 < cap <= isize::MAX / 64,
        ensures
            m.wf(),
            m.entries() == Seq::<(u64, K, V)>::empty(),
            m.capacity() == cap,
    {
        let memory = table_with_capacity(cap);
        let mut prev: Vec<usize> = Vec::with_capacity(2);
        let mut next: Vec<usize> = Vec::with_capacity(2);
        prev.push(0);
        prev.push(0);
        next.push(1);
        next.push(1);
        let m = LRUMap { memory, cap, slots: Vec::new(), prev, next, hasher, order: Ghost(Seq::empty()) };
        proof {
            assert(link_at(m.order@, m.prev@, m.next@, -1));
            assert(m.entries() =~= Seq::<(u64, K, V)>::empty());
        }
        m
    }

    /// Removes every entry.
    pub fn clear(&mut self)
        requires
            old(self).wf(),
        ensures
            final(self).wf(),
            final(self).entries() == Seq::<(u64, K, V)>::empty(),
            final(self).capacity() == old(self).capacity(),
    {
        self.slots.clear();
        self.prev.truncate(2);
        self.next.truncate(2);
        self.next[0] = 1;
        self.prev[1] = 0;
        self.order = Ghost(Seq::empty());
        table_clear(&mut self.memory);
        proof {
            assert(link_at(self.order@, self.prev@, self.next@, -1));
            assert(self.entries() =~= Seq::<(u64, K, V)>::empty());
        }
    }

    /// Number of entries.
    pub fn len(&self) -> (r: usize)
        requires
            self.wf(),
        ensures
            r == self.entries().len(),
    {
        table_len(&self.memory)
    }

    /// Whether there is no entry.
    pub fn is_empty(&self) -> (r: bool)
        requires
            self.wf(),
        ensures
            r == (self.entries().len() == 0),
    {
        proof {
            assert(link_at(self.order@, self.prev@, self.next@, -1));
        }
        self.next[0] == 1
    }

    /// Position `q`, slot `order[q]`, moves to the front.
    fn touch(&mut self, i: usize, Ghost(q): Ghost<int>)
        requires
            old(self).wf(),
            0 <= q < old(self).order@.len(),
            old(self).order@[q] == i,
        ensures
            final(self).wf(),
            final(self).entries() == touched(old(self).entries(), q),
            final(self).order@ == seq![i] + old(self).order@.remove(q),
            final(self).slots == old(self).slots,
            final(self).memory == old(self).memory,
            final(self).cap == old(self).cap,
    {
        let ghost o = self.order@;
        let ghost n = self.slots@.len();
        proof {
            lemma_touch_order(o, n, q);
        }
        unlink(&mut self.prev, &mut self.next, i + 2, Ghost(o), Ghost(q));
        push_front(&mut self.prev, &mut self.next, i, Ghost(o.remove(q)));
        self.order = Ghost(seq![i] + o.remove(q));
        proof {
            assert(self.entries() =~= touched(entries_of(o, self.slots@), q));
        }
    }

    /// The position that slot `i` has in the order.
    proof fn position_of(&self, i: int) -> (q: int)
        requires
            self.wf(),
            0 <= i < self.slots@.len(),
        ensures
            0 <= q < self.order@.len(),
            self.order@[q] == i,
    {
        assert(occurs(self.order@, i));
        choose|q: int| 0 <= q < self.order@.len() && self.order@[q] == i
    }

    /// A slot stored under `hash` with key `key` is found by the table; when
    /// the table finds none, no entry has this hash and key.
    proof fn lemma_absent(&self, hash: u64, key: K)
        requires
            self.wf(),
            forall|i: usize| #[trigger] table_items(self.memory).contains((hash, i))
                ==> !(self.slots@[i as int].hash == hash && self.slots@[i as int].key == key),
        ensures
            !holds(self.entries(), hash, key),
    {
        if holds(self.entries(), hash, key) {
            let p = choose|p: int| 0 <= p < self.entries().len() && self.entries()[p].0 == hash
                && self.entries()[p].1 == key;
            let i = self.order@[p];
            assert(table_items(self.memory).count((hash, i)) == 1);
            assert(table_items(self.memory).contains((hash, i)));
        }
    }

    /// The entry at position `q` is the one with this hash and key.
    proof fn lemma_position(&self, q: int, hash: u64, key: K)
        requires
            self.wf(),
            0 <= q < self.order@.len(),
            self.slots@[self.order@[q] as int].hash == hash,
            self.slots@[self.order@[q] as int].key == key,
        ensures
            holds(self.entries(), hash, key),
            position(self.entries(), hash, key) == q,
    {
        let e = self.entries();
        assert(e[q].0 == hash && e[q].1 == key);
        let p = position(e, hash, key);
        let a = self.order@[p];
        let b = self.order@[q];
        if p != q {
            if a < b {
                assert(!(self.slots@[a as int].hash == self.slots@[b as int].hash
                    && self.slots@[a as int].key == self.slots@[b as int].key));
            } else if b < a {
                assert(!(self.slots@[b as int].hash == self.slots@[a as int].hash
                    && self.slots@[b as int].key == self.slots@[a as int].key));
            } else if p < q {
                assert(self.order@[p] != self.order@[q]);
            } else {
                assert(self.order@[q] != self.order@[p]);
            }
        }
    }

    /// The entries are distinct and no more than the capacity.
    pub proof fn lemma_entries(&self)
        requires
            self.wf(),
        ensures
            distinct_entries(self.entries()),
            self.entries().len() <= self.capacity(),
    {
        let e = self.entries();
        assert forall|p: int, q: int| 0 <= p < q < e.len() implies !(e[p].0 == e[q].0 && e[p].1 == e[q].1) by {
            let a = self.order@[p];
            let b = self.order@[q];
            assert(a != b);
            if a < b {
                assert(!(self.slots@[a as int].hash == self.slots@[b as int].hash
                    && self.slots@[a as int].key == self.slots@[b as int].key));
            } else {
                assert(!(self.slots@[b as int].hash == self.slots@[a as int].hash
                    && self.slots@[b as int].key == self.slots@[a as int].key));
            }
        }
    }

    /// Looks up `key` under `hash`; a found entry becomes the most recently
    /// used.
    pub fn get_hashed(&mut self, key: &K, hash: u64) -> (r: Option<&V>)
        where
            K: PartialEq,
        requires
            old(self).wf(),
            obeys_concrete_eq::<K>(),
        ensures
            final(self).wf(),
            final(self).capacity() == old(self).capacity(),
            final(self).entries() == after_lookup(old(self).entries(), hash, *key),
            r matches Some(v) ==> looked_up(old(self).entries(), hash, *key) == Some(*v),
            r is None ==> looked_up(old(self).entries(), hash, *key) is None,
    {
        proof {
            assert forall|p: (u64, usize)| #[trigger] table_items(self.memory).contains(p) implies p.1 < self.slots@.len() by {
                assert(table_items(self.memory).count(p) > 0);
            }
        }
        match table_find(&self.memory, hash, &self.slots, key) {
            None => {
                proof {
                    self.lemma_absent(hash, *key);
                }
                None
            },
            Some(i) => {
                let ghost q = self.position_of(i as int);
                proof {
                    self.lemma_position(q, hash, *key);
                }
                self.touch(i, Ghost(q));
                Some(&self.slots[i].value)
            },
        }
    }

    /// Inserts `key` and `value` under `hash`: an entry with this hash and
    /// key gets the new value; otherwise a new entry is made, in the slot of
    /// the least recently used entry when the cache is full. Either way the
    /// entry becomes the most recently used.
    pub fn insert_hashed(&mut self, key: K, value: V, hash: u64)
        where
            K: PartialEq,
        requires
            old(self).wf(),
            obeys_concrete_eq::<K>(),
        ensures
            final(self).wf(),
            final(self).capacity() == old(self).capacity(),
            final(self).entries() == after_insert(old(self).entries(), old(self).capacity(), hash, key, value),
    {
        let ghost items0 = table_items(self.memory);
        proof {
            assert forall|p: (u64, usize)| #[trigger] items0.contains(p) implies p.1 < self.slots@.len()
                && self.slots@[p.1 as int].hash == p.0 by {
                assert(items0.count(p) > 0);
            }
        }
        match table_find(&self.memory, hash, &self.slots, &key) {
            Some(i) => {
                let ghost q = self.position_of(i as int);
                proof {
                    self.lemma_position(q, hash, key);
                }
                self.touch(i, Ghost(q));
                let ghost e1 = self.entries();
                let ghost s1 = self.slots@;
                self.slots[i].value = value;
                proof {
                    assert(self.slots@ == s1.update(i as int, Slot { key: s1[i as int].key, value, hash: s1[i as int].hash }));
                    assert(self.entries() =~= e1.update(0, (hash, key, value)));
                    assert forall|p: (u64, usize)| #[trigger] table_items(self.memory).count(p) == if p.1 < self.slots@.len()
                        && self.slots@[p.1 as int].hash == p.0 { 1nat } else { 0nat } by {
                        assert(table_items(self.memory).count(p) == if p.1 < s1.len() && s1[p.1 as int].hash == p.0 { 1nat } else { 0nat });
                    }
                }
            },
            None => {
                proof {
                    self.lemma_absent(hash, key);
                }
                let ghost s0 = self.slots@;
                assert forall|j: int| 0 <= j < s0.len() implies !(#[trigger] s0[j].hash == hash && s0[j].key == key) by {
                    if s0[j].hash == hash {
                        assert(items0.count((hash, j as usize)) == 1);
                        assert(items0.contains((hash, j as usize)));
                    }
                }
                let ghost e0 = self.entries();
                let ghost o = self.order@;
                let n = table_len(&self.memory);
                if n < self.cap {
                    proof {
                        lemma_push_order(o, n);
                        assert forall|p: int| -1 <= p < o.len() implies #[trigger] link_at(o, self.prev@.push(0), self.next@.push(0), p) by {
                            assert(link_at(o, self.prev@, self.next@, p));
                        }
                    }
                    self.slots.push(Slot { key, value, hash });
                    self.prev.push(0);
                    self.next.push(0);
                    push_front(&mut self.prev, &mut self.next, n, Ghost(o));
                    self.order = Ghost(seq![n] + o);
                    table_insert(&mut self.memory, hash, n, &self.slots);
                    proof {
                        assert(self.entries() =~= seq![(hash, key, value)] + e0);
                    }
                } else {
                    proof {
                        assert(link_at(o, self.prev@, self.next@, n - 1));
                    }
                    let b = self.prev[1];
                    let i = b - 2;
                    self.touch(i, Ghost(n - 1));
                    let removed = table_remove(&mut self.memory, self.slots[i].hash, &self.slots, &self.slots[i].key);
                    proof {
                        let hi = self.slots@[i as int].hash;
                        assert(items0.count((hi, i)) == 1);
                        assert(items0.contains((hi, i)));
                        match removed {
                            None => {
                                assert(false);
                            },
                            Some(j) => {
                                if j != i {
                                    if j < i {
                                        assert(!(self.slots@[j as int].hash == self.slots@[i as int].hash
                                            && self.slots@[j as int].key == self.slots@[i as int].key));
                                    } else {
                                        assert(!(self.slots@[i as int].hash == self.slots@[j as int].hash
                                            && self.slots@[i as int].key == self.slots@[j as int].key));
                                    }
                                }
                            },
                        }
                        assert(removed == Some(i));
                        assert(Multiset::singleton((hi, i)).subset_of(items0));
                        assert(table_items(self.memory).len() == items0.len() - 1);
                    }
                    let ghost s1 = self.slots@;
                    let ghost items1 = table_items(self.memory);
                    self.slots[i] = Slot { key, value, hash };
                    proof {
                        assert forall|p: (u64, usize)| #[trigger] items1.contains(p) implies p.1 < self.slots@.len()
                            && self.slots@[p.1 as int].hash == p.0 by {
                            assert(items0.count(p) > 0);
                        }
                    }
                    table_insert(&mut self.memory, hash, i, &self.slots);
                    proof {
                        assert(self.entries() =~= seq![(hash, key, value)] + e0.drop_last());
                    }
                }
            },
        }
    }

    /// Looks up `key` under `hash` for changing its value; a found entry
    /// becomes the most recently used.
    pub fn get_mut_hashed(&mut self, key: &K, hash: u64) -> (r: Option<&mut V>)
        where
            K: PartialEq,
        requires
            old(self).wf(),
            obeys_concrete_eq::<K>(),
        ensures
            final(self).wf(),
            final(self).capacity() == old(self).capacity(),
            r is None ==> looked_up(old(self).entries(), hash, *key) is None
                && final(self).entries() == old(self).entries(),
            r matches Some(v) ==> looked_up(old(self).entries(), hash, *key) == Some(*v)
                && final(self).entries() == after_lookup(old(self).entries(), hash, *key).update(0, (hash, *key, *final(v))),
    {
        proof {
            assert forall|p: (u64, usize)| #[trigger] table_items(self.memory).contains(p) implies p.1 < self.slots@.len() by {
                assert(table_items(self.memory).count(p) > 0);
            }
        }
        match table_find(&self.memory, hash, &self.slots, key) {
            None => {
                proof {
                    self.lemma_absent(hash, *key);
                }
                None
            },
            Some(i) => {
                let ghost q = self.position_of(i as int);
                proof {
                    self.lemma_position(q, hash, *key);
                }
                self.touch(i, Ghost(q));
                Some(&mut self.slots[i].value)
            },
        }
    }

    /// The key at position `pos`, counted from the most recently used entry.
    pub fn key_at(&self, pos: usize) -> (r: &K)
        requires
            self.wf(),
            pos < self.entries().len(),
        ensures
            *r == self.entries()[pos as int].1,
    {
        let ghost o = self.order@;
        proof {
            assert(link_at(o, self.prev@, self.next@, -1));
        }
        let mut node = self.next[0];
        let mut j: usize = 0;
        while j < pos
            invariant
                self.wf(),
                o == self.order@,
                pos < o.len(),
                j <= pos,
                node == node_at(o, j as int),
            decreases pos - j,
        {
            proof {
                assert(link_at(o, self.prev@, self.next@, j as int));
            }
            node = self.next[node];
            j += 1;
        }
        &self.slots[node - 2].key
    }
}

impl<K, V> LRUMap<K, V> {
    /// A cache of `cap` entries with the default hash builder.
    pub fn with_capacity(cap: usize) -> (m: Self)
        requires
            0 < cap <= isize::MAX / 64,
        ensures
            m.wf(),
            m.entries() == Seq::<(u64, K, V)>::empty(),
            m.capacity() == cap,
    {
        Self::with_capacity_and_hasher(cap, default_hasher())
    }
}

impl<K: Eq + Hash, V, S: BuildHasher> LRUMap<K, V, S> {
    /// Looks up `key`; a found entry becomes the most recently used. The
    /// lookup goes by the hash the map's hash builder gives for `key`.
    pub fn get(&mut self, key: &K) -> (r: Option<&V>)
        requires
            old(self).wf(),
            obeys_concrete_eq::<K>(),
        ensures
            final(self).wf(),
            final(self).capacity() == old(self).capacity(),
            exists|hash: u64| {
                &&& final(self).entries() == after_lookup(old(self).entries(), hash, *key)
                &&& r matches Some(v) ==> looked_up(old(self).entries(), hash, *key) == Some(*v)
                &&& r is None ==> looked_up(old(self).entries(), hash, *key) is None
            },
    {
        let hash = hash_key(&self.hasher, key);
        self.get_hashed(key, hash)
    }

    /// Looks up `key` for changing its value; a found entry becomes the most
    /// recently used.
    pub fn get_mut(&mut self, key: &K) -> (r: Option<&mut V>)
        requires
            old(self).wf(),
            obeys_concrete_eq::<K>(),
        ensures
            final(self).wf(),
            final(self).capacity() == old(self).capacity(),
            exists|hash: u64| {
                &&& r is None ==> looked_up(old(self).entries(), hash, *key) is None
                    && final(self).entries() == old(self).entries()
                &&& r matches Some(v) ==> looked_up(old(self).entries(), hash, *key) == Some(*v)
                    && final(self).entries() == after_lookup(old(self).entries(), hash, *key).update(0, (hash, *key, *final(v)))
            },
    {
        let hash = hash_key(&self.hasher, key);
        self.get_mut_hashed(key, hash)
    }

    /// Inserts `key` and `value`, under the hash the map's hash builder
    /// gives for `key`; see `insert_hashed`.
    pub fn insert(&mut self, key: K, value: V)
        requires
            old(self).wf(),
            obeys_concrete_eq::<K>(),
        ensures
            final(self).wf(),
            final(self).capacity() == old(self).capacity(),
            exists|hash: u64| final(self).entries() == #[trigger] after_insert(old(self).entries(), old(self).capacity(), hash, key, value),
    {
        let hash = hash_key(&self.hasher, &key);
        self.insert_hashed(key, value, hash);
    }
}

} // verus!

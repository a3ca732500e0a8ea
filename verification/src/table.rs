//! Count tables: maps from a key to a count, kept in ascending key order.
//!
//! A table is a vector of entries whose keys strictly increase. Its view is
//! that sequence of entries, so the order in which a table is written out is
//! part of what its contracts state; `map` is the same table as a mathematical
//! map, for what does not depend on the order.

use vstd::prelude::*;
use crate::order::{Key, Rank};

verus! {

/// A key occurs among the entries.
pub open spec fn has_key<M>(s: Seq<(M, nat)>, k: M) -> bool {
    exists|i: int| 0 <= i < s.len() && (#[trigger] s[i]).0 == k
}

/// A place at which a key occurs among the entries.
pub open spec fn index_of<M>(s: Seq<(M, nat)>, k: M) -> int {
    choose|i: int| 0 <= i < s.len() && (#[trigger] s[i]).0 == k
}

/// The entries as a map from key to count.
pub open spec fn to_map<M>(s: Seq<(M, nat)>) -> Map<M, nat> {
    Map::new(|k: M| has_key(s, k), |k: M| s[index_of(s, k)].1)
}

/// The keys of the entries strictly increase.
pub open spec fn increasing<K: Key>(s: Seq<(K::Model, nat)>) -> bool {
    forall|i: int, j: int|
        #![trigger s[i], s[j]]
        0 <= i < j < s.len() ==> K::precedes(s[i].0, s[j].0)
}

/// The count that a map holds for a key: zero where it holds none.
pub open spec fn count_in<M>(m: Map<M, nat>, k: M) -> nat {
    if m.contains_key(k) {
        m[k]
    } else {
        0
    }
}

/// The sum of two tables: a key of either is a key of the sum, and its count
/// is the sum of its two counts.
pub open spec fn sum_maps<M>(a: Map<M, nat>, b: Map<M, nat>) -> Map<M, nat> {
    Map::new(
        |k: M| a.contains_key(k) || b.contains_key(k),
        |k: M| count_in(a, k) + count_in(b, k),
    )
}

/// Every count fits in 64 bits.
pub open spec fn fits_u64<M>(m: Map<M, nat>) -> bool {
    forall|k: M| m.contains_key(k) ==> #[trigger] m[k] <= u64::MAX
}

/// Keys that strictly increase are all different.
pub proof fn lemma_increasing_distinct<K: Key>(s: Seq<(K::Model, nat)>, i: int, j: int)
    requires
        increasing::<K>(s),
        0 <= i < s.len(),
        0 <= j < s.len(),
        s[i].0 == s[j].0,
    ensures
        i == j,
{
    K::lemma_strict_total_order(s[i].0, s[j].0, s[i].0);
}

/// The map holds each entry of an increasing sequence under its key.
pub proof fn lemma_to_map_at<K: Key>(s: Seq<(K::Model, nat)>, i: int)
    requires
        increasing::<K>(s),
        0 <= i < s.len(),
    ensures
        to_map(s).contains_key(s[i].0),
        to_map(s)[s[i].0] == s[i].1,
{
    assert(has_key(s, s[i].0));
    lemma_increasing_distinct::<K>(s, i, index_of(s, s[i].0));
}

/// Replacing the count of one entry replaces it in the map.
pub proof fn lemma_to_map_update<K: Key>(s: Seq<(K::Model, nat)>, i: int, c: nat)
    requires
        increasing::<K>(s),
        0 <= i < s.len(),
    ensures
        increasing::<K>(s.update(i, (s[i].0, c))),
        to_map(s.update(i, (s[i].0, c))) == to_map(s).insert(s[i].0, c),
{
    let t = s.update(i, (s[i].0, c));
    assert forall|a: int, b: int| 0 <= a < b < t.len() implies K::precedes(t[a].0, t[b].0) by {
        assert(K::precedes(s[a].0, s[b].0));
    }
    assert forall|k: K::Model| to_map(t).contains_key(k) == to_map(s).insert(
        s[i].0,
        c,
    ).contains_key(k) by {
        if has_key(t, k) {
            let j = index_of(t, k);
            assert(s[j].0 == k);
        }
        if has_key(s, k) {
            let j = index_of(s, k);
            assert(t[j].0 == k);
        }
        if k == s[i].0 {
            assert(t[i].0 == k);
        }
    }
    assert forall|k: K::Model| to_map(t).contains_key(k) implies to_map(t)[k] == to_map(s).insert(
        s[i].0,
        c,
    )[k] by {
        let j = index_of(t, k);
        lemma_to_map_at::<K>(t, j);
        assert(s[j].0 == k);
        lemma_to_map_at::<K>(s, j);
        if j != i && k == s[i].0 {
            lemma_increasing_distinct::<K>(s, i, j);
        }
    }
    assert(to_map(t) =~= to_map(s).insert(s[i].0, c));
}

/// Putting a new key at its place in the order adds it to the map.
pub proof fn lemma_to_map_insert<K: Key>(s: Seq<(K::Model, nat)>, i: int, k: K::Model, c: nat)
    requires
        increasing::<K>(s),
        0 <= i <= s.len(),
        forall|j: int| 0 <= j < i ==> K::precedes((#[trigger] s[j]).0, k),
        forall|j: int| i <= j < s.len() ==> K::precedes(k, (#[trigger] s[j]).0),
    ensures
        !has_key(s, k),
        increasing::<K>(s.insert(i, (k, c))),
        to_map(s.insert(i, (k, c))) == to_map(s).insert(k, c),
{
    let t = s.insert(i, (k, c));
    assert(!has_key(s, k)) by {
        if has_key(s, k) {
            let j = index_of(s, k);
            K::lemma_strict_total_order(k, k, k);
        }
    }
    assert forall|a: int, b: int| 0 <= a < b < t.len() implies K::precedes(t[a].0, t[b].0) by {
        if a < i && b == i {
            assert(t[a] == s[a]);
        } else if a == i {
            assert(t[b] == s[b - 1]);
        } else if a < i && b > i {
            assert(t[a] == s[a]);
            assert(t[b] == s[b - 1]);
            assert(K::precedes(s[a].0, s[b - 1].0));
        } else if b < i {
            assert(t[a] == s[a]);
            assert(t[b] == s[b]);
        } else {
            assert(t[a] == s[a - 1]);
            assert(t[b] == s[b - 1]);
            assert(K::precedes(s[a - 1].0, s[b - 1].0));
        }
    }
    assert forall|x: K::Model| to_map(t).contains_key(x) == to_map(s).insert(k, c).contains_key(
        x,
    ) by {
        if has_key(t, x) {
            let j = index_of(t, x);
            if j < i {
                assert(s[j].0 == x);
            } else if j > i {
                assert(s[j - 1].0 == x);
            }
        }
        if has_key(s, x) {
            let j = index_of(s, x);
            if j < i {
                assert(t[j].0 == x);
            } else {
                assert(t[j + 1].0 == x);
            }
        }
        if x == k {
            assert(t[i].0 == x);
        }
    }
    assert forall|x: K::Model| to_map(t).contains_key(x) implies to_map(t)[x] == to_map(s).insert(
        k,
        c,
    )[x] by {
        let j = index_of(t, x);
        lemma_to_map_at::<K>(t, j);
        if j < i {
            assert(s[j].0 == x);
            lemma_to_map_at::<K>(s, j);
        } else if j > i {
            assert(s[j - 1].0 == x);
            lemma_to_map_at::<K>(s, j - 1);
        }
    }
    assert(to_map(t) =~= to_map(s).insert(k, c));
}

/// A prefix of an increasing sequence increases, and the next entry adds its
/// key to the map of the prefix before it.
pub proof fn lemma_to_map_take_next<K: Key>(s: Seq<(K::Model, nat)>, i: int)
    requires
        increasing::<K>(s),
        0 <= i < s.len(),
    ensures
        increasing::<K>(s.take(i)),
        increasing::<K>(s.take(i + 1)),
        !to_map(s.take(i)).contains_key(s[i].0),
        to_map(s.take(i + 1)) == to_map(s.take(i)).insert(s[i].0, s[i].1),
{
    let p = s.take(i);
    assert forall|a: int, b: int| 0 <= a < b < p.len() implies K::precedes(p[a].0, p[b].0) by {
        assert(K::precedes(s[a].0, s[b].0));
    }
    assert forall|j: int| 0 <= j < i implies K::precedes((#[trigger] p[j]).0, s[i].0) by {
        assert(K::precedes(s[j].0, s[i].0));
    }
    lemma_to_map_insert::<K>(p, i, s[i].0, s[i].1);
    assert(p.insert(i, s[i]) =~= s.take(i + 1));
}

/// Two increasing sequences that hold the same map are the same sequence: a
/// table has one order only.
pub proof fn lemma_same_map_same_entries<K: Key>(s: Seq<(K::Model, nat)>, t: Seq<(K::Model, nat)>)
    requires
        increasing::<K>(s),
        increasing::<K>(t),
        to_map(s) == to_map(t),
    ensures
        s == t,
    decreases s.len(),
{
    if s.len() == 0 {
        if t.len() > 0 {
            lemma_to_map_at::<K>(t, 0);
            assert(has_key(s, t[0].0));
        }
        assert(s =~= t);
    } else {
        let last = s.len() - 1;
        let k = s[last].0;
        lemma_to_map_at::<K>(s, last);
        assert(has_key(t, k));
        let j = index_of(t, k);
        let tl = t.len() - 1;
        lemma_to_map_at::<K>(t, tl);
        assert(has_key(s, t[tl].0));
        let m = index_of(s, t[tl].0);
        if j < tl {
            assert(K::precedes(t[j].0, t[tl].0));
            if m < last {
                assert(K::precedes(s[m].0, s[last].0));
                K::lemma_strict_total_order(k, t[tl].0, k);
            } else {
                K::lemma_strict_total_order(k, k, k);
            }
        }
        assert(j == tl);
        lemma_to_map_at::<K>(t, j);
        assert(s[last] == t[tl]);
        lemma_to_map_take_next::<K>(s, last);
        lemma_to_map_take_next::<K>(t, tl);
        assert(s.take(last + 1) =~= s);
        assert(t.take(tl + 1) =~= t);
        assert(to_map(s.take(last)) =~= to_map(s).remove(k));
        assert(to_map(t.take(tl)) =~= to_map(t).remove(k));
        lemma_same_map_same_entries::<K>(s.take(last), t.take(tl));
        assert(s =~= s.take(last).push(s[last]));
        assert(t =~= t.take(tl).push(t[tl]));
    }
}

/// The entries of a map in ascending key order.
pub open spec fn entries_of<K: Key>(m: Map<K::Model, nat>) -> Seq<(K::Model, nat)> {
    choose|s: Seq<(K::Model, nat)>| increasing::<K>(s) && to_map(s) == m
}

/// The entries of a table are those of its map in ascending key order: the
/// map alone says in which order a table is written out.
pub proof fn lemma_entries_of<K: Key>(s: Seq<(K::Model, nat)>)
    requires
        increasing::<K>(s),
    ensures
        entries_of::<K>(to_map(s)) == s,
{
    let t = entries_of::<K>(to_map(s));
    lemma_same_map_same_entries::<K>(s, t);
}

/// The sum of two tables does not depend on their order.
pub proof fn lemma_sum_maps_commutative<M>(a: Map<M, nat>, b: Map<M, nat>)
    ensures
        sum_maps(a, b) == sum_maps(b, a),
{
    assert(sum_maps(a, b) =~= sum_maps(b, a));
}

/// Sums of three tables do not depend on how they are grouped.
pub proof fn lemma_sum_maps_associative<M>(a: Map<M, nat>, b: Map<M, nat>, c: Map<M, nat>)
    ensures
        sum_maps(sum_maps(a, b), c) == sum_maps(a, sum_maps(b, c)),
{
    assert(sum_maps(sum_maps(a, b), c) =~= sum_maps(a, sum_maps(b, c)));
}

/// Adding the empty table changes nothing.
pub proof fn lemma_sum_maps_empty<M>(a: Map<M, nat>)
    ensures
        sum_maps(a, Map::<M, nat>::empty()) == a,
        sum_maps(Map::<M, nat>::empty(), a) == a,
{
    assert(sum_maps(a, Map::<M, nat>::empty()) =~= a);
    assert(sum_maps(Map::<M, nat>::empty(), a) =~= a);
}

/// A key that is new to both summands is new to the sum.
pub proof fn lemma_sum_maps_insert<M>(a: Map<M, nat>, b: Map<M, nat>, k: M, x: nat, y: nat)
    requires
        !a.contains_key(k),
        !b.contains_key(k),
    ensures
        sum_maps(a.insert(k, x), b) == sum_maps(a, b).insert(k, x),
        sum_maps(a, b.insert(k, y)) == sum_maps(a, b).insert(k, y),
        sum_maps(a.insert(k, x), b.insert(k, y)) == sum_maps(a, b).insert(k, x + y),
{
    assert(sum_maps(a.insert(k, x), b) =~= sum_maps(a, b).insert(k, x));
    assert(sum_maps(a, b.insert(k, y)) =~= sum_maps(a, b).insert(k, y));
    assert(sum_maps(a.insert(k, x), b.insert(k, y)) =~= sum_maps(a, b).insert(k, x + y));
}

/// A map from keys to counts, in ascending key order.
#[derive(Debug)]
pub struct Table<K: Key> {
    entries: Vec<(K, u64)>,
}

impl<K: Key> View for Table<K> {
    type V = Seq<(K::Model, nat)>;

    closed spec fn view(&self) -> Seq<(K::Model, nat)> {
        self.entries@.map_values(|e: (K, u64)| (e.0.model(), e.1 as nat))
    }
}

impl<K: Key> Table<K> {
    /// The keys strictly increase, so no key occurs twice.
    pub open spec fn wf(&self) -> bool {
        increasing::<K>(self@)
    }

    /// The table as a map from key to count.
    pub open spec fn map(&self) -> Map<K::Model, nat> {
        to_map(self@)
    }

    /// Every count of a table fits in 64 bits.
    pub proof fn lemma_counts_fit(&self)
        requires
            self.wf(),
        ensures
            fits_u64(self.map()),
            forall|i: int| 0 <= i < self@.len() ==> (#[trigger] self@[i]).1 <= u64::MAX,
    {
        assert forall|k: K::Model| self.map().contains_key(k) implies #[trigger] self.map()[k]
            <= u64::MAX by {
            let j = index_of(self@, k);
            lemma_to_map_at::<K>(self@, j);
        }
    }

    /// The empty table.
    pub fn new() -> (table: Self)
        ensures
            table@ == Seq::<(K::Model, nat)>::empty(),
            table.wf(),
    {
        let table = Table { entries: Vec::new() };
        proof {
            assert(table@ =~= Seq::<(K::Model, nat)>::empty());
        }
        table
    }

    /// The number of keys.
    pub fn len(&self) -> (n: usize)
        ensures
            n == self@.len(),
    {
        self.entries.len()
    }

    /// The key of the entry at a place in the order.
    pub fn key_at(&self, i: usize) -> (key: &K)
        requires
            i < self@.len(),
        ensures
            key.model() == self@[i as int].0,
    {
        &self.entries[i].0
    }

    /// The count of the entry at a place in the order.
    pub fn count_at(&self, i: usize) -> (count: u64)
        requires
            i < self@.len(),
        ensures
            count == self@[i as int].1,
    {
        self.entries[i].1
    }

    /// Looks a key up by bisection. With `true` comes the place of the key;
    /// with `false`, the place at which it would have to be put.
    pub fn find(&self, key: &K) -> (r: (usize, bool))
        requires
            self.wf(),
        ensures
            r.0 <= self@.len(),
            r.1 ==> r.0 < self@.len() && self@[r.0 as int].0 == key.model(),
            !r.1 ==> !has_key(self@, key.model()),
            !r.1 ==> forall|j: int| 0 <= j < r.0 ==> K::precedes((#[trigger] self@[j]).0, key.model()),
            !r.1 ==> forall|j: int|
                r.0 <= j < self@.len() ==> K::precedes(key.model(), (#[trigger] self@[j]).0),
    {
        let mut low: usize = 0;
        let mut high: usize = self.entries.len();
        while low < high
            invariant
                self.wf(),
                low <= high <= self@.len(),
                self@.len() == self.entries@.len(),
                forall|j: int| 0 <= j < low ==> K::precedes((#[trigger] self@[j]).0, key.model()),
                forall|j: int|
                    high <= j < self@.len() ==> K::precedes(key.model(), (#[trigger] self@[j]).0),
            decreases high - low,
        {
            let mid: usize = low + (high - low) / 2;
            let rank = self.entries[mid].0.rank(key);
            proof {
                assert(self@[mid as int].0 == self.entries@[mid as int].0.model());
            }
            match rank {
                Rank::Same => {
                    return (mid, true);
                },
                Rank::Before => {
                    proof {
                        assert forall|j: int| 0 <= j < mid + 1 implies K::precedes(
                            (#[trigger] self@[j]).0,
                            key.model(),
                        ) by {
                            if j < mid {
                                assert(K::precedes(self@[j].0, self@[mid as int].0));
                                K::lemma_strict_total_order(
                                    self@[j].0,
                                    self@[mid as int].0,
                                    key.model(),
                                );
                            }
                        }
                    }
                    low = mid + 1;
                },
                Rank::After => {
                    proof {
                        assert forall|j: int| mid <= j < self@.len() implies K::precedes(
                            key.model(),
                            (#[trigger] self@[j]).0,
                        ) by {
                            if j > mid {
                                assert(K::precedes(self@[mid as int].0, self@[j].0));
                                K::lemma_strict_total_order(
                                    key.model(),
                                    self@[mid as int].0,
                                    self@[j].0,
                                );
                            }
                        }
                    }
                    high = mid;
                },
            }
        }
        proof {
            if has_key(self@, key.model()) {
                let j = index_of(self@, key.model());
                K::lemma_strict_total_order(key.model(), key.model(), key.model());
            }
        }
        (low, false)
    }

    /// The count held for a key, if the table holds one.
    pub fn get(&self, key: &K) -> (count: Option<u64>)
        requires
            self.wf(),
        ensures
            match count {
                Some(c) => self.map().contains_key(key.model()) && self.map()[key.model()] == c,
                None => !self.map().contains_key(key.model()),
            },
    {
        let (i, found) = self.find(key);
        if found {
            proof {
                lemma_to_map_at::<K>(self@, i as int);
            }
            Some(self.entries[i].1)
        } else {
            None
        }
    }

    /// Adds `amount` to the count of `key`, which starts from zero where the
    /// table did not hold the key. Where the sum does not fit in 64 bits the
    /// table stays as it was and the answer is `false`.
    pub fn add(&mut self, key: K, amount: u64) -> (added: bool)
        requires
            old(self).wf(),
        ensures
            final(self).wf(),
            added <==> count_in(old(self).map(), key.model()) + amount <= u64::MAX,
            added ==> final(self).map() == old(self).map().insert(
                key.model(),
                count_in(old(self).map(), key.model()) + amount as nat,
            ),
            !added ==> final(self)@ == old(self)@,
    {
        let (i, found) = self.find(&key);
        if found {
            let count = self.entries[i].1;
            proof {
                lemma_to_map_at::<K>(self@, i as int);
            }
            match count.checked_add(amount) {
                Some(total) => {
                    proof {
                        lemma_to_map_update::<K>(self@, i as int, total as nat);
                    }
                    let ghost before = self@;
                    let ghost model = key.model();
                    self.entries.set(i, (key, total));
                    proof {
                        assert(self@ =~= before.update(i as int, (model, total as nat)));
                    }
                    true
                },
                None => false,
            }
        } else {
            proof {
                lemma_to_map_insert::<K>(self@, i as int, key.model(), amount as nat);
            }
            let ghost before = self@;
            let ghost model = key.model();
            self.entries.insert(i, (key, amount));
            proof {
                assert(self@ =~= before.insert(i as int, (model, amount as nat)));
            }
            true
        }
    }
    /// The sum of two tables, by one pass over both in key order. Where a sum
    /// of two counts does not fit in 64 bits there is no sum.
    pub fn merge(&self, other: &Self) -> (merged: Option<Self>)
        requires
            self.wf(),
            other.wf(),
        ensures
            merged is Some <==> fits_u64(sum_maps(self.map(), other.map())),
            merged matches Some(t) ==> t.wf() && t.map() == sum_maps(self.map(), other.map()),
    {
        let mut out: Table<K> = Table::new();
        let mut i: usize = 0;
        let mut j: usize = 0;
        let na: usize = self.entries.len();
        let nb: usize = other.entries.len();
        proof {
            assert(to_map(self@.take(0)) =~= Map::<K::Model, nat>::empty());
            assert(to_map(other@.take(0)) =~= Map::<K::Model, nat>::empty());
            assert(to_map(out@) =~= Map::<K::Model, nat>::empty());
            lemma_sum_maps_empty(Map::<K::Model, nat>::empty());
        }
        while i < na || j < nb
            invariant
                self.wf(),
                other.wf(),
                out.wf(),
                na == self@.len(),
                nb == other@.len(),
                na == self.entries@.len(),
                nb == other.entries@.len(),
                i <= na,
                j <= nb,
                forall|m: int|
                    0 <= m < out@.len() && i < na ==> K::precedes(
                        (#[trigger] out@[m]).0,
                        self@[i as int].0,
                    ),
                forall|m: int|
                    0 <= m < out@.len() && j < nb ==> K::precedes(
                        (#[trigger] out@[m]).0,
                        other@[j as int].0,
                    ),
                to_map(out@) == sum_maps(to_map(self@.take(i as int)), to_map(other@.take(j as int))),
            decreases (na - i) + (nb - j),
        {
            let ghost before = out@;
            let ghost left = to_map(self@.take(i as int));
            let ghost right = to_map(other@.take(j as int));
            let rank = if i >= na {
                Rank::After
            } else if j >= nb {
                Rank::Before
            } else {
                self.entries[i].0.rank(&other.entries[j].0)
            };
            proof {
                if i < na {
                    assert(self@[i as int].0 == self.entries@[i as int].0.model());
                    assert(self@[i as int].1 == self.entries@[i as int].1);
                    lemma_to_map_take_next::<K>(self@, i as int);
                    lemma_to_map_at::<K>(self@, i as int);
                }
                if j < nb {
                    assert(other@[j as int].0 == other.entries@[j as int].0.model());
                    assert(other@[j as int].1 == other.entries@[j as int].1);
                    lemma_to_map_take_next::<K>(other@, j as int);
                    lemma_to_map_at::<K>(other@, j as int);
                }
            }
            let ghost k = if rank == Rank::After {
                other@[j as int].0
            } else {
                self@[i as int].0
            };
            proof {
                // The key that goes out next is new to what went out before.
                K::lemma_strict_total_order(k, k, k);
                if has_key(before, k) {
                    let m = index_of(before, k);
                    if rank == Rank::After && i < na {
                        K::lemma_strict_total_order(
                            other@[j as int].0,
                            self@[i as int].0,
                            other@[j as int].0,
                        );
                    }
                }
                assert(!to_map(before).contains_key(k));
                assert(!left.contains_key(k));
                assert(!right.contains_key(k));
            }
            let key: K;
            let count: u64;
            match rank {
                Rank::Before => {
                    key = self.entries[i].0.duplicate();
                    count = self.entries[i].1;
                    proof {
                        lemma_sum_maps_insert(left, right, k, count as nat, 0);
                        assert forall|m: int|
                            0 <= m < before.len() + 1 && i + 1 < na implies K::precedes(
                            (#[trigger] before.push((k, count as nat))[m]).0,
                            self@[i as int + 1].0,
                        ) by {
                            assert(K::precedes(self@[i as int].0, self@[i as int + 1].0));
                            if m < before.len() {
                                K::lemma_strict_total_order(
                                    before[m].0,
                                    self@[i as int].0,
                                    self@[i as int + 1].0,
                                );
                            }
                        }
                    }
                    i += 1;
                },
                Rank::After => {
                    key = other.entries[j].0.duplicate();
                    count = other.entries[j].1;
                    proof {
                        lemma_sum_maps_insert(left, right, k, 0, count as nat);
                        assert forall|m: int|
                            0 <= m < before.len() + 1 && j + 1 < nb implies K::precedes(
                            (#[trigger] before.push((k, count as nat))[m]).0,
                            other@[j as int + 1].0,
                        ) by {
                            assert(K::precedes(other@[j as int].0, other@[j as int + 1].0));
                            if m < before.len() {
                                K::lemma_strict_total_order(
                                    before[m].0,
                                    other@[j as int].0,
                                    other@[j as int + 1].0,
                                );
                            }
                        }
                    }
                    j += 1;
                },
                Rank::Same => {
                    key = self.entries[i].0.duplicate();
                    match self.entries[i].1.checked_add(other.entries[j].1) {
                        Some(total) => {
                            count = total;
                        },
                        None => {
                            proof {
                                let sum = sum_maps(self.map(), other.map());
                                assert(sum.contains_key(k));
                                assert(sum[k] > u64::MAX);
                            }
                            return None;
                        },
                    }
                    proof {
                        lemma_sum_maps_insert(
                            left,
                            right,
                            k,
                            self@[i as int].1,
                            other@[j as int].1,
                        );
                        assert forall|m: int|
                            0 <= m < before.len() + 1 && i + 1 < na implies K::precedes(
                            (#[trigger] before.push((k, count as nat))[m]).0,
                            self@[i as int + 1].0,
                        ) by {
                            assert(K::precedes(self@[i as int].0, self@[i as int + 1].0));
                            if m < before.len() {
                                K::lemma_strict_total_order(
                                    before[m].0,
                                    self@[i as int].0,
                                    self@[i as int + 1].0,
                                );
                            }
                        }
                        assert forall|m: int|
                            0 <= m < before.len() + 1 && j + 1 < nb implies K::precedes(
                            (#[trigger] before.push((k, count as nat))[m]).0,
                            other@[j as int + 1].0,
                        ) by {
                            assert(K::precedes(other@[j as int].0, other@[j as int + 1].0));
                            if m < before.len() {
                                K::lemma_strict_total_order(
                                    before[m].0,
                                    other@[j as int].0,
                                    other@[j as int + 1].0,
                                );
                            }
                        }
                    }
                    i += 1;
                    j += 1;
                },
            }
            proof {
                assert forall|m: int| 0 <= m < before.len() implies K::precedes(
                    (#[trigger] before[m]).0,
                    k,
                ) by {}
                lemma_to_map_insert::<K>(before, before.len() as int, k, count as nat);
                assert(before.insert(before.len() as int, (k, count as nat)) =~= before.push(
                    (k, count as nat),
                ));
            }
            out.entries.push((key, count));
            proof {
                assert(out@ =~= before.push((k, count as nat)));
            }
        }
        proof {
            assert(self@.take(na as int) =~= self@);
            assert(other@.take(nb as int) =~= other@);
            out.lemma_counts_fit();
        }
        Some(out)
    }
}

} // verus!

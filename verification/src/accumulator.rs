//! Adding many small tables up. The tables that come in are kept on a stack
//! on which no table is more than twice as large as the one below it: two
//! neighbours that come too close in size are merged. A key is then moved a
//! number of times that grows with the logarithm of the number of keys, not
//! with the number of tables that came in.

use vstd::prelude::*;
use crate::order::Key;
use crate::table::{count_in, fits_u64, sum_maps, Table};
use crate::table::lemma_sum_maps_associative;

verus! {

/// The sum of any number of tables.
pub open spec fn sum_all<M>(maps: Seq<Map<M, nat>>) -> Map<M, nat>
    decreases maps.len(),
{
    if maps.len() == 0 {
        Map::empty()
    } else {
        sum_maps(sum_all(maps.drop_last()), maps.last())
    }
}

/// The maps of a stack of tables.
pub open spec fn table_maps<K: Key>(tables: Seq<Table<K>>) -> Seq<Map<K::Model, nat>> {
    tables.map_values(|t: Table<K>| t.map())
}

/// Where a sum fits in 64 bits, so do its two parts.
pub proof fn lemma_parts_fit<M>(a: Map<M, nat>, b: Map<M, nat>)
    requires
        fits_u64(sum_maps(a, b)),
    ensures
        fits_u64(a),
        fits_u64(b),
{
    let sum = sum_maps(a, b);
    assert forall|k: M| a.contains_key(k) implies #[trigger] a[k] <= u64::MAX by {
        assert(sum.contains_key(k));
        assert(sum[k] == count_in(a, k) + count_in(b, k));
    }
    assert forall|k: M| b.contains_key(k) implies #[trigger] b[k] <= u64::MAX by {
        assert(sum.contains_key(k));
        assert(sum[k] == count_in(a, k) + count_in(b, k));
    }
}

/// Where the sum of all tables fits in 64 bits, so does the sum of the first of them.
pub proof fn lemma_first_fit<M>(maps: Seq<Map<M, nat>>, n: int)
    requires
        0 <= n <= maps.len(),
        fits_u64(sum_all(maps)),
    ensures
        fits_u64(sum_all(maps.take(n))),
    decreases maps.len(),
{
    if n == maps.len() {
        assert(maps.take(n) =~= maps);
    } else {
        lemma_parts_fit(sum_all(maps.drop_last()), maps.last());
        assert(maps.drop_last().take(n) =~= maps.take(n));
        lemma_first_fit(maps.drop_last(), n);
    }
}

/// The two tables on top of a stack can be replaced by their sum.
pub proof fn lemma_sum_all_joins_top<M>(
    rest: Seq<Map<M, nat>>,
    under: Map<M, nat>,
    top: Map<M, nat>,
)
    ensures
        sum_all(rest.push(under).push(top)) == sum_all(rest.push(sum_maps(under, top))),
        sum_all(rest.push(under).push(top)) == sum_maps(sum_all(rest), sum_maps(under, top)),
        sum_all(rest.push(top)) == sum_maps(sum_all(rest), top),
{
    let one = rest.push(under);
    let two = one.push(top);
    let joined = rest.push(sum_maps(under, top));
    assert(two.drop_last() =~= one);
    assert(two.last() == top);
    assert(one.drop_last() =~= rest);
    assert(one.last() == under);
    assert(joined.drop_last() =~= rest);
    assert(joined.last() == sum_maps(under, top));
    assert(rest.push(top).drop_last() =~= rest);
    assert(rest.push(top).last() == top);
    assert(sum_all(one) == sum_maps(sum_all(rest), under));
    assert(sum_all(two) == sum_maps(sum_all(one), top));
    assert(sum_all(joined) == sum_maps(sum_all(rest), sum_maps(under, top)));
    lemma_sum_maps_associative(sum_all(rest), under, top);
}

/// A sum of tables that is still being added to.
pub struct Accumulator<K: Key> {
    levels: Vec<Table<K>>,
}

impl<K: Key> Accumulator<K> {
    /// Every table of the stack is in order.
    pub closed spec fn wf(&self) -> bool {
        forall|i: int| 0 <= i < self.levels@.len() ==> (#[trigger] self.levels@[i]).wf()
    }

    /// The sum of what was added.
    pub closed spec fn total(&self) -> Map<K::Model, nat> {
        sum_all(table_maps(self.levels@))
    }

    /// The sum of nothing.
    pub fn new() -> (sum: Self)
        ensures
            sum.wf(),
            sum.total() == Map::<K::Model, nat>::empty(),
    {
        let sum = Accumulator { levels: Vec::new() };
        proof {
            assert(table_maps(sum.levels@) =~= Seq::empty());
        }
        sum
    }

    /// Adds a table to the sum. The answer is `false` where a count of the
    /// sum does not fit in 64 bits, and was found not to; the sum is then of
    /// no use.
    pub fn absorb(&mut self, table: Table<K>) -> (ok: bool)
        requires
            old(self).wf(),
            table.wf(),
        ensures
            final(self).wf(),
            ok ==> final(self).total() == sum_maps(old(self).total(), table.map()),
            !ok ==> !fits_u64(sum_maps(old(self).total(), table.map())),
    {
        let ghost target = sum_maps(self.total(), table.map());
        proof {
            let maps = table_maps(self.levels@);
            assert(table_maps(self.levels@.push(table)) =~= maps.push(table.map()));
            assert(maps.push(table.map()).drop_last() =~= maps);
        }
        self.levels.push(table);
        while self.levels.len() >= 2
            invariant
                self.wf(),
                self.total() == target,
                target == sum_maps(old(self).total(), table.map()),
            decreases self.levels.len(),
        {
            let n: usize = self.levels.len();
            if self.levels[n - 1].len() < self.levels[n - 2].len() / 2 {
                break;
            }
            let ghost before = self.levels@;
            let top = self.levels.pop().unwrap();
            let under = self.levels.pop().unwrap();
            let ghost rest = self.levels@;
            proof {
                assert(before =~= rest.push(under).push(top));
                assert(table_maps(before) =~= table_maps(rest).push(under.map()).push(top.map()));
                lemma_sum_all_joins_top(table_maps(rest), under.map(), top.map());
                assert(under.wf()) by {
                    assert(under == before[n - 2]);
                }
                assert(top.wf()) by {
                    assert(top == before[n - 1]);
                }
                assert forall|i: int| 0 <= i < rest.len() implies (#[trigger] rest[i]).wf() by {
                    assert(rest[i] == before[i]);
                }
            }
            match under.merge(&top) {
                Some(joined) => {
                    proof {
                        assert(table_maps(rest.push(joined)) =~= table_maps(rest).push(
                            sum_maps(under.map(), top.map()),
                        ));
                        assert forall|i: int| 0 <= i < rest.push(joined).len() implies (
                        #[trigger] rest.push(joined)[i]).wf() by {
                            if i < rest.len() {
                                assert(rest.push(joined)[i] == rest[i]);
                            }
                        }
                    }
                    self.levels.push(joined);
                },
                None => {
                    proof {
                        if fits_u64(target) {
                            lemma_parts_fit(
                                sum_all(table_maps(rest)),
                                sum_maps(under.map(), top.map()),
                            );
                        }
                    }
                    return false;
                },
            }
        }
        true
    }

    /// The sum as one table. There is none where a count of the sum does not
    /// fit in 64 bits.
    pub fn finish(self) -> (sum: Option<Table<K>>)
        requires
            self.wf(),
        ensures
            sum is Some <==> fits_u64(self.total()),
            sum matches Some(t) ==> t.wf() && t.map() == self.total(),
    {
        let ghost maps = table_maps(self.levels@);
        let mut sum: Table<K> = Table::new();
        let mut i: usize = 0;
        proof {
            assert(maps.take(0) =~= Seq::empty());
            assert(sum.map() =~= Map::<K::Model, nat>::empty());
        }
        while i < self.levels.len()
            invariant
                self.wf(),
                i <= self.levels.len(),
                maps == table_maps(self.levels@),
                sum.wf(),
                sum.map() == sum_all(maps.take(i as int)),
            decreases self.levels.len() - i,
        {
            proof {
                assert(maps[i as int] == self.levels@[i as int].map());
                assert(maps.take(i as int + 1).drop_last() =~= maps.take(i as int));
                assert(maps.take(i as int + 1).last() == maps[i as int]);
            }
            match sum.merge(&self.levels[i]) {
                Some(next) => {
                    sum = next;
                },
                None => {
                    proof {
                        if fits_u64(sum_all(maps)) {
                            lemma_first_fit(maps, i as int + 1);
                        }
                    }
                    return None;
                },
            }
            i += 1;
        }
        proof {
            assert(maps.take(self.levels.len() as int) == maps);
            sum.lemma_counts_fit();
        }
        Some(sum)
    }
}

} // verus!

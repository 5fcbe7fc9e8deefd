//! The mathematical model of the aggregation: what the table must hold
//! after any sequence of records, and the laws that follow from it.

use vstd::prelude::*;

verus! {

/// The mathematical content of one per-key aggregate cell.
pub struct AggregateModel {
    pub min: int,
    pub max: int,
    pub total: int,
    pub count: int,
}

impl AggregateModel {
    /// The cell created by the first occurrence of a key.
    pub open spec fn seed(v: int) -> AggregateModel {
        AggregateModel { min: v, max: v, total: v, count: 1 }
    }

    /// The cell after folding in one more reading.
    pub open spec fn update(self, v: int) -> AggregateModel {
        AggregateModel {
            min: vstd::math::min(self.min, v),
            max: vstd::math::max(self.max, v),
            total: self.total + v,
            count: self.count + 1,
        }
    }
}

/// The table that results from folding a sequence of `(key, value)`
/// records, in order, into an initially empty map: the first occurrence of
/// a key seeds its cell, every later occurrence updates it.
pub open spec fn table_of(rs: Seq<(Seq<u8>, int)>) -> Map<Seq<u8>, AggregateModel>
    decreases rs.len(),
{
    if rs.len() == 0 {
        Map::empty()
    } else {
        let prev = table_of(rs.drop_last());
        let k = rs.last().0;
        let v = rs.last().1;
        if prev.dom().contains(k) {
            prev.insert(k, prev[k].update(v))
        } else {
            prev.insert(k, AggregateModel::seed(v))
        }
    }
}

/// How many records of the sequence carry the given key.
pub open spec fn occurrences(rs: Seq<(Seq<u8>, int)>, k: Seq<u8>) -> nat
    decreases rs.len(),
{
    if rs.len() == 0 {
        0
    } else {
        occurrences(rs.drop_last(), k) + if rs.last().0 == k {
            1nat
        } else {
            0nat
        }
    }
}

/// The sum of the values of the records that carry the given key.
pub open spec fn total_for(rs: Seq<(Seq<u8>, int)>, k: Seq<u8>) -> int
    decreases rs.len(),
{
    if rs.len() == 0 {
        0
    } else {
        total_for(rs.drop_last(), k) + if rs.last().0 == k {
            rs.last().1
        } else {
            0int
        }
    }
}

/// Unfolds one step of `table_of`: the last record either updates the cell
/// of an already-seen key or seeds a fresh one.
pub proof fn lemma_table_of_step(rs: Seq<(Seq<u8>, int)>)
    requires
        rs.len() > 0,
    ensures
        table_of(rs.drop_last()).dom().contains(rs.last().0) ==> table_of(rs) == table_of(
            rs.drop_last(),
        ).insert(rs.last().0, table_of(rs.drop_last())[rs.last().0].update(rs.last().1)),
        !table_of(rs.drop_last()).dom().contains(rs.last().0) ==> table_of(rs) == table_of(
            rs.drop_last(),
        ).insert(rs.last().0, AggregateModel::seed(rs.last().1)),
{
}

/// The table holds an entry for a key exactly when the key occurs in the
/// records, and that entry's count is the number of occurrences; a key
/// without occurrences appears at no index and has a zero total.
pub proof fn lemma_entry_per_key(rs: Seq<(Seq<u8>, int)>, k: Seq<u8>)
    ensures
        table_of(rs).dom().contains(k) <==> occurrences(rs, k) > 0,
        table_of(rs).dom().contains(k) ==> table_of(rs)[k].count == occurrences(rs, k),
        occurrences(rs, k) == 0 ==> forall|i: int|
            0 <= i < rs.len() ==> (#[trigger] rs[i]).0 != k,
        occurrences(rs, k) == 0 ==> total_for(rs, k) == 0,
    decreases rs.len(),
{
    if rs.len() > 0 {
        let prev = rs.drop_last();
        let k0 = rs.last().0;
        lemma_entry_per_key(prev, k);
        lemma_table_of_step(rs);
        assert(table_of(rs).dom().contains(k) ==> k == k0 || table_of(prev).dom().contains(k));
        assert forall|i: int| occurrences(rs, k) == 0 && 0 <= i < rs.len() implies (
        #[trigger] rs[i]).0 != k by {
            if i < rs.len() - 1 {
                assert(prev[i] == rs[i]);
            }
        }
    } else {
        assert(table_of(rs) == Map::<Seq<u8>, AggregateModel>::empty());
        assert(!table_of(rs).dom().contains(k));
    }
}

/// Every value recorded for a key lies between that key's minimum and
/// maximum, and the key's total is exactly the sum of its values.
pub proof fn lemma_min_max_total(rs: Seq<(Seq<u8>, int)>, k: Seq<u8>)
    ensures
        table_of(rs).dom().contains(k) ==> table_of(rs)[k].total == total_for(rs, k),
        table_of(rs).dom().contains(k) ==> forall|i: int|
            0 <= i < rs.len() && (#[trigger] rs[i]).0 == k ==> table_of(rs)[k].min <= rs[i].1
                <= table_of(rs)[k].max,
    decreases rs.len(),
{
    if rs.len() > 0 {
        let prev = rs.drop_last();
        let k0 = rs.last().0;
        lemma_min_max_total(prev, k);
        lemma_entry_per_key(prev, k);
        lemma_table_of_step(rs);
        if k0 == k && !table_of(prev).dom().contains(k) {
            assert(occurrences(prev, k) == 0);
            assert(total_for(prev, k) == 0);
        }
        assert forall|i: int|
            table_of(rs).dom().contains(k) && 0 <= i < rs.len() && (#[trigger] rs[i]).0
                == k implies table_of(rs)[k].min <= rs[i].1 <= table_of(rs)[k].max by {
            if i < rs.len() - 1 {
                assert(prev[i] == rs[i]);
            } else {
                assert(rs[i] == rs.last());
            }
        }
    }
}

/// Bounds that the table inherits from bounded values: every cell's count
/// is between 1 and the number of records, its extremes stay within the
/// value range, and its total is bounded by `999 * count` in magnitude.
pub proof fn lemma_table_of_bounds(rs: Seq<(Seq<u8>, int)>)
    requires
        forall|i: int| 0 <= i < rs.len() ==> -999 <= #[trigger] rs[i].1 <= 999,
    ensures
        forall|k: Seq<u8>| #[trigger] table_of(rs).dom().contains(k) ==> {
            let c = table_of(rs)[k];
            &&& 1 <= c.count <= rs.len()
            &&& -999 <= c.min <= c.max <= 999
            &&& -999 * c.count <= c.total <= 999 * c.count
        },
    decreases rs.len(),
{
    if rs.len() > 0 {
        let prev = rs.drop_last();
        assert forall|i: int| 0 <= i < prev.len() implies -999 <= #[trigger] prev[i].1 <= 999 by {
            assert(prev[i] == rs[i]);
        }
        lemma_table_of_bounds(prev);
        lemma_table_of_step(rs);
        assert(-999 <= rs.last().1 <= 999);
    }
}

/// The average is lossy: two different `(total, count)` states can yield
/// the same rounded average, so the average alone cannot reproduce the sum
/// or the count. (The min, max, total and count fields are exact.)
pub proof fn lemma_average_lossy()
    ensures
        exists|a: AggregateModel, b: AggregateModel|
            {
                &&& 1 <= a.count && 1 <= b.count
                &&& (a.total + a.count / 2) / a.count == (b.total + b.count / 2) / b.count
                &&& !(a.total == b.total && a.count == b.count)
            },
{
    let a = AggregateModel { min: 0, max: 0, total: 0, count: 1 };
    let b = AggregateModel { min: 0, max: 0, total: 0, count: 2 };
    assert((a.total + a.count / 2) / a.count == 0);
    assert((b.total + b.count / 2) / b.count == 0);
    assert({
        &&& 1 <= a.count && 1 <= b.count
        &&& (a.total + a.count / 2) / a.count == (b.total + b.count / 2) / b.count
        &&& !(a.total == b.total && a.count == b.count)
    });
}

/// The rounded average is the integer nearest to `total / count`, with a
/// tie rounded toward the larger integer: `a = (total + count / 2) / count`
/// (division toward negative infinity) satisfies
/// `2 * count * a <= 2 * total + count < 2 * count * (a + 1)`.
pub proof fn lemma_average_rounds(m: AggregateModel)
    requires
        1 <= m.count,
    ensures
        2 * m.count * ((m.total + m.count / 2) / m.count) <= 2 * m.total + m.count,
        2 * m.total + m.count < 2 * m.count * ((m.total + m.count / 2) / m.count + 1),
{
    let t = m.total + m.count / 2;
    let a = t / m.count;
    vstd::arithmetic::div_mod::lemma_fundamental_div_mod(t, m.count);
    vstd::arithmetic::div_mod::lemma_mod_bound(t, m.count);
    assert(m.count * a <= t < m.count * (a + 1)) by (nonlinear_arith)
        requires
            1 <= m.count,
            t == m.count * a + t % m.count,
            0 <= t % m.count < m.count,
    ;
    assert(2 * (m.count * a) == 2 * m.count * a) by (nonlinear_arith);
    assert(2 * (m.count * (a + 1)) == 2 * m.count * (a + 1)) by (nonlinear_arith);
    assert(2 * t <= 2 * m.total + m.count < 2 * t + 2);
}

} // verus!

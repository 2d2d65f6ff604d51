//! Properties of the derivation that relate several inputs or calls.
use crate::processor::{
    derived, lemma_sort_by_date, observation_of, observations, pct_changes, sort_by_date,
    sorted_by_date, years, Observation, RawRow,
};
use crate::stats::{group_max, group_min};
use vstd::multiset::Multiset;
use vstd::prelude::*;

verus! {

broadcast use vstd::seq_lib::group_to_multiset_ensures;

/// The observation of a row, as a multiset of zero or one element.
spec fn observation_bag(r: RawRow) -> Multiset<Observation> {
    match observation_of(r) {
        Some(o) => Multiset::singleton(o),
        None => Multiset::empty(),
    }
}

proof fn lemma_observations_append(p: Seq<RawRow>, q: Seq<RawRow>)
    ensures
        observations(p + q) == observations(p) + observations(q),
    decreases q.len(),
{
    if q.len() == 0 {
        assert(p + q =~= p);
        assert(observations(p) + observations(q) =~= observations(p));
    } else {
        let q1 = q.drop_last();
        assert((p + q).drop_last() =~= p + q1);
        assert((p + q).last() == q.last());
        lemma_observations_append(p, q1);
        match observation_of(q.last()) {
            Some(o) => {
                assert((observations(p) + observations(q1)).push(o) =~= observations(p)
                    + observations(q1).push(o));
            },
            None => {},
        }
    }
}

proof fn lemma_observations_single(r: RawRow)
    ensures
        observations(seq![r]).to_multiset() == observation_bag(r),
{
    assert(seq![r].drop_last() =~= Seq::<RawRow>::empty());
    assert(seq![r].last() == r);
    assert(observations(Seq::<RawRow>::empty()) == Seq::<Observation>::empty());
    match observation_of(r) {
        Some(o) => {
            assert(observations(seq![r]) =~= seq![o]);
            assert(seq![o] =~= Seq::<Observation>::empty().push(o));
            assert(seq![o].to_multiset() =~= Multiset::singleton(o));
        },
        None => {
            assert(observations(seq![r]).to_multiset() =~= Multiset::empty());
        },
    }
}

proof fn lemma_observations_remove(b: Seq<RawRow>, k: int)
    requires
        0 <= k < b.len(),
    ensures
        observations(b).to_multiset() == observations(b.remove(k)).to_multiset().add(
            observation_bag(b[k]),
        ),
{
    let (l, m, r) = (b.take(k), seq![b[k]], b.skip(k + 1));
    assert(b =~= l + m + r);
    assert(b.remove(k) =~= l + r);
    lemma_observations_append(l + m, r);
    lemma_observations_append(l, m);
    lemma_observations_append(l, r);
    lemma_observations_single(b[k]);
    vstd::seq_lib::lemma_multiset_commutative(observations(l) + observations(m), observations(r));
    vstd::seq_lib::lemma_multiset_commutative(observations(l), observations(m));
    vstd::seq_lib::lemma_multiset_commutative(observations(l), observations(r));
    assert(observations(b).to_multiset() =~= observations(b.remove(k)).to_multiset().add(
        observation_bag(b[k]),
    ));
}

/// Rows in another order give the same observations, in another order.
proof fn lemma_observations_permuted(a: Seq<RawRow>, b: Seq<RawRow>)
    requires
        a.to_multiset() == b.to_multiset(),
    ensures
        observations(a).to_multiset() == observations(b).to_multiset(),
    decreases a.len(),
{
    if a.len() == 0 {
        assert(b.to_multiset().len() == 0);
        assert(b.len() == 0);
        assert(b =~= a);
    } else {
        let x = a.last();
        let a1 = a.drop_last();
        assert(a =~= a1.push(x));
        assert(a.to_multiset().count(x) > 0);
        assert(b.contains(x));
        let k = choose|k: int| 0 <= k < b.len() && b[k] == x;
        let b1 = b.remove(k);
        assert(b1.to_multiset() == b.to_multiset().remove(x));
        assert(a1.to_multiset() =~= a.to_multiset().remove(x));
        lemma_observations_permuted(a1, b1);
        lemma_observations_remove(b, k);
        lemma_observations_remove(a, a.len() - 1);
        assert(a.remove(a.len() - 1) =~= a1);
    }
}

/// Observations of equal dates are equal.
pub open spec fn dates_identify(m: Multiset<Observation>) -> bool {
    forall|x: Observation, y: Observation|
        #![trigger m.count(x), m.count(y)]
        m.count(x) > 0 && m.count(y) > 0 && x.date == y.date ==> x == y
}

/// Two date-ordered sequences of the same observations, in which a date
/// identifies its observation, are equal.
proof fn lemma_sorted_unique(t1: Seq<Observation>, t2: Seq<Observation>)
    requires
        sorted_by_date(t1),
        sorted_by_date(t2),
        t1.to_multiset() == t2.to_multiset(),
        dates_identify(t1.to_multiset()),
    ensures
        t1 == t2,
    decreases t1.len(),
{
    assert(t1.len() == t2.len()) by {
        assert(t1.to_multiset().len() == t1.len());
    }
    if t1.len() > 0 {
        let n = t1.len();
        let (x1, x2) = (t1.last(), t2.last());
        assert(t2.to_multiset().count(x1) > 0);
        assert(t2.contains(x1));
        let k2 = choose|k: int| 0 <= k < t2.len() && t2[k] == x1;
        assert(t1.to_multiset().count(x2) > 0);
        assert(t1.contains(x2));
        let k1 = choose|k: int| 0 <= k < t1.len() && t1[k] == x2;
        assert(t1[n - 1] == x1 && t2[n - 1] == x2);
        if k1 < n - 1 {
            assert(t1[k1].date.spec_le(t1[n - 1].date));
        }
        if k2 < n - 1 {
            assert(t2[k2].date.spec_le(t2[n - 1].date));
        }
        assert(x1.date == x2.date);
        assert(x1 == x2);
        let (u1, u2) = (t1.drop_last(), t2.drop_last());
        assert(t1 =~= u1.push(x1));
        assert(t2 =~= u2.push(x2));
        assert(u1.to_multiset() =~= t1.to_multiset().remove(x1));
        assert(u2.to_multiset() =~= t2.to_multiset().remove(x2));
        assert(sorted_by_date(u1)) by {
            assert forall|i: int, j: int| 0 <= i < j < u1.len() implies (#[trigger] u1[i]).date.spec_le(#[trigger] u1[j].date) by {
                assert(u1[i] == t1[i] && u1[j] == t1[j]);
            }
        }
        assert(sorted_by_date(u2)) by {
            assert forall|i: int, j: int| 0 <= i < j < u2.len() implies (#[trigger] u2[i]).date.spec_le(#[trigger] u2[j].date) by {
                assert(u2[i] == t2[i] && u2[j] == t2[j]);
            }
        }
        assert(dates_identify(u1.to_multiset())) by {
            assert forall|x: Observation, y: Observation|
                u1.to_multiset().count(x) > 0 && u1.to_multiset().count(y) > 0 && x.date
                    == y.date implies x == y by {
                assert(t1.to_multiset().count(x) > 0 && t1.to_multiset().count(y) > 0);
            }
        }
        lemma_sorted_unique(u1, u2);
    }
}

/// Rows given in any order derive the same output, provided that rows whose
/// dates are equal give equal observations: a stable sort keeps rows of
/// equal dates in input order, so different rows of one date would come out
/// in the order given.
pub proof fn lemma_order_invariance(a: Seq<RawRow>, b: Seq<RawRow>, replace_nan_with_zero: bool)
    requires
        a.to_multiset() == b.to_multiset(),
        forall|i: int, j: int|
            0 <= i < observations(a).len() && 0 <= j < observations(a).len() && (
            #[trigger] observations(a)[i]).date == (#[trigger] observations(a)[j]).date
                ==> observations(a)[i] == observations(a)[j],
    ensures
        derived(sort_by_date(observations(a)), replace_nan_with_zero) == derived(
            sort_by_date(observations(b)),
            replace_nan_with_zero,
        ),
{
    let (oa, ob) = (observations(a), observations(b));
    lemma_observations_permuted(a, b);
    lemma_sort_by_date(oa);
    lemma_sort_by_date(ob);
    assert(dates_identify(oa.to_multiset())) by {
        assert forall|x: Observation, y: Observation|
            oa.to_multiset().count(x) > 0 && oa.to_multiset().count(y) > 0 && x.date
                == y.date implies x == y by {
            assert(oa.contains(x) && oa.contains(y));
            let i = choose|i: int| 0 <= i < oa.len() && oa[i] == x;
            let j = choose|j: int| 0 <= j < oa.len() && oa[j] == y;
            assert(oa[i].date == oa[j].date);
        }
    }
    lemma_sorted_unique(sort_by_date(oa), sort_by_date(ob));
}

/// A group whose present values all equal `c` has extremes `c`, or none.
proof fn lemma_flat_group(keys: Seq<int>, vals: Seq<Option<int>>, k: int, c: int)
    requires
        keys.len() == vals.len(),
        forall|i: int| 0 <= i < vals.len() && keys[i] == k && (#[trigger] vals[i]) is Some ==> vals[i] == Some(c),
    ensures
        group_min(keys, vals, k) is None || group_min(keys, vals, k) == Some(c),
        group_max(keys, vals, k) is None || group_max(keys, vals, k) == Some(c),
    decreases vals.len(),
{
    if vals.len() > 0 {
        let (ks, vs) = (keys.drop_last(), vals.drop_last());
        assert forall|i: int| 0 <= i < vs.len() && ks[i] == k && (#[trigger] vs[i]) is Some implies vs[i] == Some(c) by {
            assert(vs[i] == vals[i] && ks[i] == keys[i]);
        }
        lemma_flat_group(ks, vs, k, c);
        assert(vals.last() == vals[vals.len() - 1]);
        assert(keys.last() == keys[keys.len() - 1]);
    }
}

/// Under the "replace" policy, when every row of a calendar year has the
/// same change, the range of that year is empty and each of its rows has a
/// normalized value of zero.
pub proof fn lemma_flat_year_normalized_zero(input: Seq<RawRow>, year: i32)
    ensures
        ({
            let out = derived(sort_by_date(observations(input)), true);
            (forall|i: int, j: int|
                0 <= i < out.len() && 0 <= j < out.len() && (#[trigger] out[i]).date.year == year
                    && (#[trigger] out[j]).date.year == year ==> out[i].pct_change
                    == out[j].pct_change) ==> forall|i: int|
                0 <= i < out.len() && (#[trigger] out[i]).date.year == year ==> out[i].normalized
                    == Some(0i128)
        }),
{
    let s = sort_by_date(observations(input));
    let out = derived(s, true);
    let pc = pct_changes(s, true);
    let ys = years(s);
    if forall|i: int, j: int|
        0 <= i < out.len() && 0 <= j < out.len() && (#[trigger] out[i]).date.year == year
            && (#[trigger] out[j]).date.year == year ==> out[i].pct_change == out[j].pct_change {
        assert forall|i: int| 0 <= i < out.len() && (#[trigger] out[i]).date.year == year implies out[i].normalized == Some(0i128) by {
            let c = pc[i]->0;
            assert forall|t: int| 0 <= t < pc.len() && ys[t] == year && (#[trigger] pc[t]) is Some implies pc[t] == Some(c) by {
                assert(out[t].date.year == year);
                assert(out[t].pct_change == out[i].pct_change);
                if t > 0 && i > 0 {
                    assert(pc[t] == Some(s[t].close - s[t - 1].close));
                    assert(pc[i] == Some(s[i].close - s[i - 1].close));
                }
            }
            lemma_flat_group(ys, pc, year as int, c);
            assert(ys[i] == year);
        }
    }
}

/// Number of rows whose date cannot be read.
pub open spec fn unreadable(rows: Seq<RawRow>) -> nat
    decreases rows.len(),
{
    if rows.len() == 0 {
        0
    } else {
        unreadable(rows.drop_last()) + if observation_of(rows.last()) is None {
            1nat
        } else {
            0nat
        }
    }
}

/// Rows whose date cannot be read are dropped, and only they: the output is
/// shorter than the input by exactly their number. An absent date is never read.
pub proof fn lemma_unreadable_dropped(rows: Seq<RawRow>, r: RawRow)
    ensures
        observations(rows).len() + unreadable(rows) == rows.len(),
        r.date is Empty ==> observation_of(r) is None,
    decreases rows.len(),
{
    if rows.len() > 0 {
        lemma_unreadable_dropped(rows.drop_last(), r);
    }
}

} // verus!

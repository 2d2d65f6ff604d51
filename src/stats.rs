//! Per-group rescaling and per-month running averages over derived columns.
use std::collections::HashMap;
use vstd::prelude::*;

verus! {

broadcast use vstd::std_specs::hash::group_hash_axioms;

/// One hundred, in millionths: the top of the 0..100 normalized scale.
pub const HUNDRED: i128 = 100_000_000;

/// Bound on the magnitude of the values that can be rescaled.
pub const VALUE_BOUND: i128 = 0x4_0000_0000_0000_0000;

/// The NaN policy: with `replace` a missing value becomes zero.
pub open spec fn resolve(v: Option<int>, replace: bool) -> Option<int> {
    if replace && v is None {
        Some(0)
    } else {
        v
    }
}

/// Smallest present value whose key is `k`, or `None` if there is none.
pub open spec fn group_min(keys: Seq<int>, vals: Seq<Option<int>>, k: int) -> Option<int>
    decreases vals.len(),
{
    if vals.len() == 0 || keys.len() != vals.len() {
        None
    } else {
        let rest = group_min(keys.drop_last(), vals.drop_last(), k);
        if keys.last() == k && vals.last() is Some {
            let v = vals.last()->0;
            match rest {
                Some(m) => Some(if v < m { v } else { m }),
                None => Some(v),
            }
        } else {
            rest
        }
    }
}

/// Largest present value whose key is `k`, or `None` if there is none.
pub open spec fn group_max(keys: Seq<int>, vals: Seq<Option<int>>, k: int) -> Option<int>
    decreases vals.len(),
{
    if vals.len() == 0 || keys.len() != vals.len() {
        None
    } else {
        let rest = group_max(keys.drop_last(), vals.drop_last(), k);
        if keys.last() == k && vals.last() is Some {
            let v = vals.last()->0;
            match rest {
                Some(m) => Some(if v > m { v } else { m }),
                None => Some(v),
            }
        } else {
            rest
        }
    }
}

/// `v` placed linearly on a 0..100 scale (in millionths, rounded down)
/// between `lo` and `hi`; `None` when any is missing or the range is empty.
pub open spec fn rescale(v: Option<int>, lo: Option<int>, hi: Option<int>) -> Option<int> {
    match (v, lo, hi) {
        (Some(x), Some(a), Some(b)) => if a == b {
            None
        } else {
            Some((x - a) * (HUNDRED as int) / (b - a))
        },
        _ => None,
    }
}

/// The value at `i` rescaled between the extremes of its group, under the NaN policy.
pub open spec fn normalized_at(keys: Seq<int>, vals: Seq<Option<int>>, i: int, replace: bool) -> Option<int> {
    resolve(
        rescale(vals[i], group_min(keys, vals, keys[i]), group_max(keys, vals, keys[i])),
        replace,
    )
}

pub open spec fn keys_of(keys: Seq<i32>) -> Seq<int> {
    keys.map_values(|k: i32| k as int)
}

pub open spec fn vals_of(vals: Seq<Option<i128>>) -> Seq<Option<int>> {
    vals.map_values(|v: Option<i128>| opt_int(v))
}

pub open spec fn opt_int(v: Option<i128>) -> Option<int> {
    match v {
        Some(x) => Some(x as int),
        None => None,
    }
}

pub open spec fn bounded(vals: Seq<Option<i128>>) -> bool {
    forall|i: int|
        0 <= i < vals.len() && (#[trigger] vals[i]) is Some ==> -VALUE_BOUND <= vals[i]->0
            <= VALUE_BOUND
}

pub open spec fn in_scale(v: Option<int>) -> bool {
    v is Some ==> 0 <= v->0 <= HUNDRED
}

/// Extremes are `None` together, and bound every present value of the group.
proof fn lemma_group_extremes(keys: Seq<int>, vals: Seq<Option<int>>, k: int)
    requires
        keys.len() == vals.len(),
    ensures
        group_min(keys, vals, k) is Some <==> group_max(keys, vals, k) is Some,
        group_min(keys, vals, k) is Some ==> group_min(keys, vals, k)->0 <= group_max(keys, vals, k)->0,
        forall|i: int|
            0 <= i < vals.len() && keys[i] == k && (#[trigger] vals[i]) is Some ==> {
                &&& group_min(keys, vals, k) is Some
                &&& group_min(keys, vals, k)->0 <= vals[i]->0 <= group_max(keys, vals, k)->0
            },
    decreases vals.len(),
{
    if vals.len() > 0 {
        let (ks, vs) = (keys.drop_last(), vals.drop_last());
        lemma_group_extremes(ks, vs, k);
        assert forall|i: int|
            0 <= i < vals.len() && keys[i] == k && (#[trigger] vals[i]) is Some implies {
                &&& group_min(keys, vals, k) is Some
                &&& group_min(keys, vals, k)->0 <= vals[i]->0 <= group_max(keys, vals, k)->0
            } by {
            if i < vals.len() - 1 {
                assert(vs[i] == vals[i]);
                assert(ks[i] == keys[i]);
            }
        }
    }
}

/// Extremes lie within any bound that holds of every present value.
proof fn lemma_group_bounds(keys: Seq<int>, vals: Seq<Option<int>>, k: int, b: int)
    requires
        keys.len() == vals.len(),
        forall|i: int| 0 <= i < vals.len() && (#[trigger] vals[i]) is Some ==> -b <= vals[i]->0 <= b,
    ensures
        group_min(keys, vals, k) is Some ==> -b <= group_min(keys, vals, k)->0 <= b,
        group_max(keys, vals, k) is Some ==> -b <= group_max(keys, vals, k)->0 <= b,
    decreases vals.len(),
{
    if vals.len() > 0 {
        let (ks, vs) = (keys.drop_last(), vals.drop_last());
        assert forall|i: int| 0 <= i < vs.len() && (#[trigger] vs[i]) is Some implies -b <= vs[i]->0 <= b by {
            assert(vs[i] == vals[i]);
        }
        lemma_group_bounds(ks, vs, k, b);
        assert(vals[vals.len() - 1] == vals.last());
    }
}

proof fn lemma_rescale_in_scale(x: int, a: int, b: int)
    requires
        a <= x <= b,
        a < b,
    ensures
        0 <= (x - a) * (HUNDRED as int) / (b - a) <= HUNDRED,
{
    let h = HUNDRED as int;
    assert(0 <= (x - a) * h) by (nonlinear_arith)
        requires
            a <= x,
            h > 0,
    ;
    assert((x - a) * h <= (b - a) * h) by (nonlinear_arith)
        requires
            x <= b,
            h > 0,
    ;
    vstd::arithmetic::div_mod::lemma_div_is_ordered((x - a) * h, (b - a) * h, b - a);
    vstd::arithmetic::div_mod::lemma_div_multiples_vanish(h, b - a);
    vstd::arithmetic::div_mod::lemma_div_pos_is_pos((x - a) * h, b - a);
    assert((b - a) * h == h * (b - a)) by (nonlinear_arith);
}

/// Rescales each present value between the smallest and largest present
/// values that share its key, under the NaN policy: one pass gathers the
/// extremes of every key, a second one applies them.
pub fn normalize_by_group(keys: &Vec<i32>, vals: &Vec<Option<i128>>, replace: bool) -> (r: Vec<
    Option<i128>,
>)
    requires
        keys.len() == vals.len(),
        bounded(vals@),
    ensures
        r.len() == vals.len(),
        forall|i: int|
            0 <= i < r.len() ==> opt_int(#[trigger] r[i]) == normalized_at(
                keys_of(keys@),
                vals_of(vals@),
                i,
                replace,
            ) && in_scale(opt_int(r[i])),
{
    let ghost ks = keys_of(keys@);
    let ghost vs = vals_of(vals@);
    let mut extremes: HashMap<i32, (i128, i128)> = HashMap::new();
    let n = vals.len();
    let mut i: usize = 0;
    while i < n
        invariant
            i <= n,
            n == vals.len(),
            keys.len() == n,
            ks == keys_of(keys@),
            vs == vals_of(vals@),
            bounded(vals@),
            forall|k: i32|
                #![trigger extremes@.contains_key(k)]
                {
                    &&& extremes@.contains_key(k) <==> group_min(
                        ks.take(i as int),
                        vs.take(i as int),
                        k as int,
                    ) is Some
                    &&& extremes@.contains_key(k) ==> {
                        &&& group_min(ks.take(i as int), vs.take(i as int), k as int) == Some(
                            extremes@[k].0 as int,
                        )
                        &&& group_max(ks.take(i as int), vs.take(i as int), k as int) == Some(
                            extremes@[k].1 as int,
                        )
                    }
                },
        decreases n - i,
    {
        proof {
            assert(ks.take(i + 1).drop_last() =~= ks.take(i as int));
            assert(vs.take(i + 1).drop_last() =~= vs.take(i as int));
            lemma_group_extremes(ks.take(i as int), vs.take(i as int), keys[i as int] as int);
        }
        match vals[i] {
            Some(v) => {
                let k = keys[i];
                let updated = match extremes.get(&k) {
                    Some(e) => {
                        let lo = if v < e.0 {
                            v
                        } else {
                            e.0
                        };
                        let hi = if v > e.1 {
                            v
                        } else {
                            e.1
                        };
                        (lo, hi)
                    },
                    None => (v, v),
                };
                extremes.insert(k, updated);
            },
            None => {},
        }
        i = i + 1;
    }
    assert(ks.take(n as int) =~= ks);
    assert(vs.take(n as int) =~= vs);
    let mut r: Vec<Option<i128>> = Vec::new();
    let mut j: usize = 0;
    while j < n
        invariant
            j <= n,
            n == vals.len(),
            keys.len() == n,
            r.len() == j,
            ks == keys_of(keys@),
            vs == vals_of(vals@),
            bounded(vals@),
            forall|k: i32|
                #![trigger extremes@.contains_key(k)]
                {
                    &&& extremes@.contains_key(k) <==> group_min(ks, vs, k as int) is Some
                    &&& extremes@.contains_key(k) ==> {
                        &&& group_min(ks, vs, k as int) == Some(extremes@[k].0 as int)
                        &&& group_max(ks, vs, k as int) == Some(extremes@[k].1 as int)
                    }
                },
            forall|t: int|
                0 <= t < j ==> opt_int(#[trigger] r[t]) == normalized_at(ks, vs, t, replace)
                    && in_scale(opt_int(r[t])),
        decreases n - j,
    {
        let k = keys[j];
        proof {
            lemma_group_extremes(ks, vs, k as int);
            assert forall|t: int| 0 <= t < vs.len() && (#[trigger] vs[t]) is Some implies
                -VALUE_BOUND <= vs[t]->0 <= VALUE_BOUND by {
                assert(vs[t] == opt_int(vals[t]));
            }
            lemma_group_bounds(ks, vs, k as int, VALUE_BOUND as int);
            assert(ks[j as int] == k as int);
            assert(vs[j as int] == opt_int(vals[j as int]));
        }
        let raw: Option<i128> = match (vals[j], extremes.get(&k)) {
            (Some(x), Some(e)) => {
                if e.0 == e.1 {
                    None
                } else {
                    proof {
                        lemma_rescale_in_scale(x as int, e.0 as int, e.1 as int);
                    }
                    Some((x - e.0) * HUNDRED / (e.1 - e.0))
                }
            },
            _ => None,
        };
        let v = if replace && raw.is_none() {
            Some(0i128)
        } else {
            raw
        };
        r.push(v);
        j = j + 1;
    }
    r
}

/// Sum of the present values whose month is `m`.
pub open spec fn month_sum(months: Seq<int>, vals: Seq<Option<int>>, m: int) -> int
    decreases vals.len(),
{
    if vals.len() == 0 || months.len() != vals.len() {
        0
    } else {
        month_sum(months.drop_last(), vals.drop_last(), m) + if months.last() == m
            && vals.last() is Some {
            vals.last()->0
        } else {
            0
        }
    }
}

/// Number of the present values whose month is `m`.
pub open spec fn month_count(months: Seq<int>, vals: Seq<Option<int>>, m: int) -> int
    decreases vals.len(),
{
    if vals.len() == 0 || months.len() != vals.len() {
        0
    } else {
        month_count(months.drop_last(), vals.drop_last(), m) + if months.last() == m
            && vals.last() is Some {
            1int
        } else {
            0
        }
    }
}

/// Mean of the present values of the same month as entry `i`, among entries
/// `0..=i` (rounded down); zero when there is none.
pub open spec fn running_average_at(months: Seq<int>, vals: Seq<Option<int>>, i: int) -> int {
    let c = month_count(months.take(i + 1), vals.take(i + 1), months[i]);
    if c > 0 {
        month_sum(months.take(i + 1), vals.take(i + 1), months[i]) / c
    } else {
        0
    }
}

pub open spec fn months_of(months: Seq<u32>) -> Seq<int> {
    months.map_values(|m: u32| m as int)
}

proof fn lemma_month_step(months: Seq<int>, vals: Seq<Option<int>>, i: int, m: int)
    requires
        months.len() == vals.len(),
        0 <= i < vals.len(),
    ensures
        month_sum(months.take(i + 1), vals.take(i + 1), m) == month_sum(
            months.take(i),
            vals.take(i),
            m,
        ) + if months[i] == m && vals[i] is Some {
            vals[i]->0
        } else {
            0
        },
        month_count(months.take(i + 1), vals.take(i + 1), m) == month_count(
            months.take(i),
            vals.take(i),
            m,
        ) + if months[i] == m && vals[i] is Some {
            1int
        } else {
            0
        },
{
    assert(months.take(i + 1).drop_last() =~= months.take(i));
    assert(vals.take(i + 1).drop_last() =~= vals.take(i));
}

/// For each entry, the running mean of the present values of its month seen
/// so far, the entry itself included: twelve accumulators, one per month,
/// carried across the whole sequence.
pub fn monthly_running_average(months: &Vec<u32>, vals: &Vec<Option<i128>>) -> (r: Vec<i128>)
    requires
        months.len() == vals.len(),
        forall|i: int| 0 <= i < months.len() ==> 1 <= #[trigger] months[i] <= 12,
        forall|i: int| 0 <= i < vals.len() ==> in_scale(opt_int(#[trigger] vals[i])),
    ensures
        r.len() == vals.len(),
        forall|i: int|
            0 <= i < r.len() ==> r[i] as int == running_average_at(
                months_of(months@),
                vals_of(vals@),
                i,
            ) && 0 <= #[trigger] r[i] <= HUNDRED,
{
    let ghost ms = months_of(months@);
    let ghost vs = vals_of(vals@);
    let mut sums: Vec<i128> = vec![0i128; 12];
    let mut counts: Vec<u64> = vec![0u64; 12];
    let mut r: Vec<i128> = Vec::new();
    let n = vals.len();
    let mut i: usize = 0;
    proof {
        assert forall|m: int| 1 <= m <= 12 implies month_sum(ms.take(0), vs.take(0), m) == 0
            && month_count(ms.take(0), vs.take(0), m) == 0 by {}
    }
    while i < n
        invariant
            i <= n,
            n == vals.len(),
            months.len() == n,
            r.len() == i,
            sums.len() == 12,
            counts.len() == 12,
            ms == months_of(months@),
            vs == vals_of(vals@),
            forall|t: int| 0 <= t < months.len() ==> 1 <= #[trigger] months[t] <= 12,
            forall|t: int| 0 <= t < vals.len() ==> in_scale(opt_int(#[trigger] vals[t])),
            forall|m: int|
                1 <= m <= 12 ==> {
                    &&& sums[m - 1] as int == #[trigger] month_sum(
                        ms.take(i as int),
                        vs.take(i as int),
                        m,
                    )
                    &&& counts[m - 1] as int == month_count(ms.take(i as int), vs.take(i as int), m)
                    &&& counts[m - 1] <= i
                    &&& 0 <= sums[m - 1] <= counts[m - 1] * HUNDRED
                },
            forall|t: int|
                0 <= t < i ==> r[t] as int == running_average_at(ms, vs, t) && 0 <= #[trigger] r[t]
                    <= HUNDRED,
        decreases n - i,
    {
        let m = months[i];
        let slot = (m - 1) as usize;
        proof {
            assert forall|mm: int| 1 <= mm <= 12 implies #[trigger] month_sum(
                ms.take(i + 1),
                vs.take(i + 1),
                mm,
            ) == month_sum(ms.take(i as int), vs.take(i as int), mm) + if ms[i as int] == mm
                && vs[i as int] is Some {
                vs[i as int]->0
            } else {
                0
            } && month_count(ms.take(i + 1), vs.take(i + 1), mm) == month_count(
                ms.take(i as int),
                vs.take(i as int),
                mm,
            ) + if ms[i as int] == mm && vs[i as int] is Some {
                1int
            } else {
                0
            } by {
                lemma_month_step(ms, vs, i as int, mm);
            }
            assert(ms[i as int] == m as int);
            assert(vs[i as int] == opt_int(vals[i as int]));
            assert(sums[m - 1] as int == month_sum(ms.take(i as int), vs.take(i as int), m as int));
            assert(counts[slot as int] <= i);
            assert(counts[slot as int] * HUNDRED <= 0x1_0000_0000_0000_0000 * HUNDRED) by (nonlinear_arith)
                requires counts[slot as int] <= 0x1_0000_0000_0000_0000int;
        }
        match vals[i] {
            Some(v) => {
                let s = sums[slot] + v;
                let c = counts[slot] + 1;
                proof {
                    let c0 = counts[slot as int] as int;
                    assert(s <= c * HUNDRED) by (nonlinear_arith)
                        requires
                            s == sums[slot as int] + v,
                            sums[slot as int] <= c0 * HUNDRED,
                            v <= HUNDRED,
                            c == c0 + 1,
                    ;
                }
                sums.set(slot, s);
                counts.set(slot, c);
            },
            None => {},
        }
        let avg: i128 = if counts[slot] > 0 {
            proof {
                let (s, c) = (sums[slot as int] as int, counts[slot as int] as int);
                assert(s / c <= HUNDRED) by (nonlinear_arith)
                    requires
                        0 <= s <= c * HUNDRED,
                        c > 0,
                {
                    vstd::arithmetic::div_mod::lemma_div_is_ordered(s, c * HUNDRED, c);
                    vstd::arithmetic::div_mod::lemma_div_multiples_vanish(HUNDRED as int, c);
                }
                vstd::arithmetic::div_mod::lemma_div_pos_is_pos(s, c);
            }
            sums[slot] / (counts[slot] as i128)
        } else {
            0
        };
        r.push(avg);
        i = i + 1;
    }
    r
}

} // verus!

//! The derivation engine: raw rows in, chronologically ordered rows with
//! their derived columns out.
use crate::date::{
    date_after_unix_epoch, date_matches, iso_date_of, parse_iso_date, parse_rfc3339_date,
    rfc3339_date_of, unix_days_to_date, Date,
};
use crate::numeric::{decimal_micros, parse_decimal, UNITS_PER_WHOLE};
use crate::stats::{
    bounded, keys_of, monthly_running_average, months_of, normalize_by_group, normalized_at,
    opt_int, running_average_at, vals_of,
};
use vstd::prelude::*;

verus! {

/// Day count of 1970-01-01 in the spreadsheet serial-date scheme (days since 1899-12-30).
pub const SERIAL_UNIX_EPOCH: i64 = 25569;

/// One field of a raw row: absent or null, text, or a number in millionths.
#[derive(Clone, Debug, PartialEq, Eq)]
pub enum Cell {
    Empty,
    Text(String),
    Number(i64),
}

/// A row as read from a spreadsheet or a store; other fields are not kept.
#[derive(Clone, Debug, PartialEq, Eq)]
pub struct RawRow {
    pub date: Cell,
    pub open: Cell,
    pub high: Cell,
    pub low: Cell,
    pub close: Cell,
}

/// A row whose date could be read; prices in millionths, zero when absent
/// or unreadable. Counting a missing price as zero skews the change of the
/// rows around it; this is kept on purpose, so that stored results stay
/// comparable, and is not a property to rely on.
#[derive(Clone, Copy, Debug, PartialEq, Eq, Structural)]
pub struct Observation {
    pub date: Date,
    pub open: i64,
    pub high: i64,
    pub low: i64,
    pub close: i64,
}

/// A row with its derived columns. Values are in millionths; `None` is the
/// not-a-number marker, which the "replace" policy turns into zero.
#[derive(Clone, Copy, Debug, PartialEq, Eq)]
pub struct DerivedRow {
    pub date: Date,
    pub open: i64,
    pub high: i64,
    pub low: i64,
    pub close: i64,
    /// Close minus the previous row's close.
    pub pct_change: Option<i128>,
    /// Calendar month of `date`, 1 to 12.
    pub month_no: u32,
    /// `pct_change` on a 0..100 scale between the extremes of its year.
    pub normalized: Option<i128>,
    /// Running mean of `normalized` over the rows of the same month so far.
    pub average_norm: Option<i128>,
    /// `average_norm` on a 0..100 scale between the extremes of its year.
    pub true_seasonal: Option<i128>,
}

/// The text that `str::trim` leaves of `s`.
pub uninterp spec fn trimmed(s: Seq<char>) -> Seq<char>;

/// Relies on `str::trim`: the text without leading and trailing white space.
#[verifier::external_body]
fn trim(s: &str) -> (r: &str)
    ensures
        r@ == trimmed(s@),
{
    s.trim()
}

/// The number a cell holds, in millionths.
pub open spec fn cell_number(c: Cell) -> Option<int> {
    match c {
        Cell::Empty => None,
        Cell::Text(s) => decimal_micros(trimmed(s@)),
        Cell::Number(n) => Some(n as int),
    }
}

pub open spec fn or_zero(v: Option<int>) -> int {
    match v {
        Some(x) => x,
        None => 0,
    }
}

/// The date of a serial day count (in millionths of a day): 1970-01-01 plus
/// the serial, rounded down, less the serial of 1970-01-01; `None` when that
/// day count is beyond any date.
pub open spec fn serial_date(serial: int) -> Option<(int, int, int)> {
    let days = serial / (UNITS_PER_WHOLE as int) - SERIAL_UNIX_EPOCH;
    if i32::MIN <= days <= i32::MAX {
        date_after_unix_epoch(days)
    } else {
        None
    }
}

/// The date a cell holds: a `YYYY-MM-DD` text, else an RFC 3339 timestamp,
/// else a serial day count as text or number.
pub open spec fn cell_date(c: Cell) -> Option<(int, int, int)> {
    match c {
        Cell::Empty => None,
        Cell::Text(s) => {
            let t = trimmed(s@);
            if t.len() == 0 {
                None
            } else if iso_date_of(t) is Some {
                iso_date_of(t)
            } else if rfc3339_date_of(t) is Some {
                rfc3339_date_of(t)
            } else {
                match decimal_micros(t) {
                    Some(v) => serial_date(v),
                    None => None,
                }
            }
        },
        Cell::Number(n) => serial_date(n as int),
    }
}

pub open spec fn date_of(t: (int, int, int)) -> Date {
    Date { year: t.0 as i32, month: t.1 as u32, day: t.2 as u32 }
}

/// The observation a raw row gives, or `None` when its date cannot be read.
pub open spec fn observation_of(r: RawRow) -> Option<Observation> {
    match cell_date(r.date) {
        Some(t) => Some(
            Observation {
                date: date_of(t),
                open: or_zero(cell_number(r.open)) as i64,
                high: or_zero(cell_number(r.high)) as i64,
                low: or_zero(cell_number(r.low)) as i64,
                close: or_zero(cell_number(r.close)) as i64,
            },
        ),
        None => None,
    }
}

/// The observations of the rows whose date can be read, in input order.
pub open spec fn observations(rows: Seq<RawRow>) -> Seq<Observation>
    decreases rows.len(),
{
    if rows.len() == 0 {
        Seq::empty()
    } else {
        let rest = observations(rows.drop_last());
        match observation_of(rows.last()) {
            Some(o) => rest.push(o),
            None => rest,
        }
    }
}

/// The number a cell holds in millionths, zero when it holds none.
fn as_number(c: &Cell) -> (r: i64)
    ensures
        r as int == or_zero(cell_number(*c)),
{
    match c {
        Cell::Empty => 0,
        Cell::Text(s) => match parse_decimal(trim(s.as_str())) {
            Some(v) => v,
            None => 0,
        },
        Cell::Number(n) => *n,
    }
}

/// The date of a serial day count given in millionths of a day.
fn excel_serial_to_date(serial: i64) -> (r: Option<Date>)
    ensures
        date_matches(r, serial_date(serial as int)),
{
    let d = UNITS_PER_WHOLE as u64;
    let whole: i64 = if serial >= 0 {
        let u = serial as u64;
        proof {
            vstd::arithmetic::div_mod::lemma_fundamental_div_mod(u as int, d as int);
            vstd::arithmetic::div_mod::lemma_mod_bound(u as int, d as int);
        }
        (u / d) as i64
    } else {
        let w = (-(serial + 1)) as u64;
        let q = (w / d) as i64;
        proof {
            let (wi, di) = (w as int, d as int);
            vstd::arithmetic::div_mod::lemma_fundamental_div_mod(wi, di);
            vstd::arithmetic::div_mod::lemma_mod_bound(wi, di);
            let (qi, ri) = (wi / di, wi % di);
            assert(serial as int == (-qi - 1) * di + (di - ri - 1)) by (nonlinear_arith)
                requires
                    wi == di * qi + ri,
                    serial as int == -(wi + 1),
            ;
            vstd::arithmetic::div_mod::lemma_fundamental_div_mod_converse(
                serial as int,
                di,
                -qi - 1,
                di - ri - 1,
            );
        }
        -q - 1
    };
    let days = whole - SERIAL_UNIX_EPOCH;
    if days < i32::MIN as i64 || days > i32::MAX as i64 {
        return None;
    }
    unix_days_to_date(days as i32)
}

/// The date of a cell, tried as `YYYY-MM-DD`, then as an RFC 3339
/// timestamp, then as a serial day count.
fn parse_date(c: &Cell) -> (r: Option<Date>)
    ensures
        date_matches(r, cell_date(*c)),
{
    match c {
        Cell::Empty => None,
        Cell::Text(s) => {
            let t = trim(s.as_str());
            if t.is_empty() {
                return None;
            }
            let iso = parse_iso_date(t);
            if iso.is_some() {
                return iso;
            }
            let stamp = parse_rfc3339_date(t);
            if stamp.is_some() {
                return stamp;
            }
            match parse_decimal(t) {
                Some(v) => excel_serial_to_date(v),
                None => None,
            }
        },
        Cell::Number(n) => excel_serial_to_date(*n),
    }
}

/// The observation of a raw row; `None` when its date cannot be read.
pub fn parse_row(r: &RawRow) -> (o: Option<Observation>)
    ensures
        o == observation_of(*r),
        o is Some ==> o->0.date.wf(),
{
    match parse_date(&r.date) {
        Some(date) => {
            proof {
                assert(date == date_of(date.ymd()));
            }
            Some(
                Observation {
                    date,
                    open: as_number(&r.open),
                    high: as_number(&r.high),
                    low: as_number(&r.low),
                    close: as_number(&r.close),
                },
            )
        },
        None => None,
    }
}

/// `x` placed after every element on or before its date, keeping the rest
/// in order.
pub open spec fn insert_by_date(s: Seq<Observation>, x: Observation) -> Seq<Observation>
    decreases s.len(),
{
    if s.len() == 0 {
        seq![x]
    } else if s.last().date.spec_le(x.date) {
        s.push(x)
    } else {
        insert_by_date(s.drop_last(), x).push(s.last())
    }
}

/// The stable sort of `s` by date: rows of equal dates keep their order.
pub open spec fn sort_by_date(s: Seq<Observation>) -> Seq<Observation>
    decreases s.len(),
{
    if s.len() == 0 {
        s
    } else {
        insert_by_date(sort_by_date(s.drop_last()), s.last())
    }
}

/// Inserting at a position after which every date is later than `x`'s, and
/// before which the last date is not.
proof fn lemma_insert_at(s: Seq<Observation>, x: Observation, j: int)
    requires
        0 <= j <= s.len(),
        j == 0 || s[j - 1].date.spec_le(x.date),
        forall|k: int| j <= k < s.len() ==> !(#[trigger] s[k]).date.spec_le(x.date),
    ensures
        insert_by_date(s, x) == s.take(j).push(x) + s.skip(j),
    decreases s.len(),
{
    if s.len() == j {
        assert(s.take(j).push(x) + s.skip(j) =~= s.push(x));
    } else {
        let t = s.drop_last();
        assert(s.last() == s[s.len() - 1]);
        assert forall|k: int| j <= k < t.len() implies !(#[trigger] t[k]).date.spec_le(x.date) by {
            assert(t[k] == s[k]);
        }
        if j > 0 {
            assert(t[j - 1] == s[j - 1]);
        }
        lemma_insert_at(t, x, j);
        assert(t.take(j).push(x) + t.skip(j) + seq![s.last()] =~= s.take(j).push(x) + s.skip(j));
        assert(insert_by_date(t, x).push(s.last()) =~= insert_by_date(t, x) + seq![s.last()]);
    }
}

/// Sorts observations by date, stably.
pub fn sort_observations(v: Vec<Observation>) -> (r: Vec<Observation>)
    ensures
        r@ == sort_by_date(v@),
{
    let mut r: Vec<Observation> = Vec::new();
    let n = v.len();
    let mut i: usize = 0;
    while i < n
        invariant
            i <= n,
            n == v.len(),
            r@ == sort_by_date(v@.take(i as int)),
        decreases n - i,
    {
        let x = v[i];
        let mut j: usize = r.len();
        while j > 0 && !r[j - 1].date.on_or_before(&x.date)
            invariant
                j <= r.len(),
                forall|k: int| j <= k < r.len() ==> !(#[trigger] r[k]).date.spec_le(x.date),
            decreases j,
        {
            j = j - 1;
        }
        proof {
            lemma_insert_at(r@, x, j as int);
            assert(v@.take(i + 1).drop_last() =~= v@.take(i as int));
            assert(v@.take(i + 1).last() == x);
        }
        r.insert(j, x);
        assert(r@ =~= insert_by_date(sort_by_date(v@.take(i as int)), x));
        i = i + 1;
    }
    assert(v@.take(n as int) =~= v@);
    r
}

/// Close-to-close change; the first row has none, or zero under "replace".
pub open spec fn pct_changes(s: Seq<Observation>, replace: bool) -> Seq<Option<int>> {
    Seq::new(
        s.len(),
        |i: int|
            if i == 0 {
                if replace {
                    Some(0int)
                } else {
                    None
                }
            } else {
                Some(s[i].close - s[i - 1].close)
            },
    )
}

pub open spec fn years(s: Seq<Observation>) -> Seq<int> {
    Seq::new(s.len(), |i: int| s[i].date.year as int)
}

pub open spec fn months(s: Seq<Observation>) -> Seq<int> {
    Seq::new(s.len(), |i: int| s[i].date.month as int)
}

/// The change of each row rescaled within its calendar year.
pub open spec fn normalized_column(s: Seq<Observation>, replace: bool) -> Seq<Option<int>> {
    Seq::new(s.len(), |i: int| normalized_at(years(s), pct_changes(s, replace), i, replace))
}

/// The running mean, per calendar month across all years, of the normalized column.
pub open spec fn average_column(s: Seq<Observation>, replace: bool) -> Seq<Option<int>> {
    Seq::new(
        s.len(),
        |i: int| Some(running_average_at(months(s), normalized_column(s, replace), i)),
    )
}

/// The running mean rescaled within each calendar year.
pub open spec fn seasonal_column(s: Seq<Observation>, replace: bool) -> Seq<Option<int>> {
    Seq::new(s.len(), |i: int| normalized_at(years(s), average_column(s, replace), i, replace))
}

pub open spec fn opt_i128(v: Option<int>) -> Option<i128> {
    match v {
        Some(x) => Some(x as i128),
        None => None,
    }
}

/// The derived rows of observations taken in the order given.
pub open spec fn derived(s: Seq<Observation>, replace: bool) -> Seq<DerivedRow> {
    Seq::new(
        s.len(),
        |i: int|
            DerivedRow {
                date: s[i].date,
                open: s[i].open,
                high: s[i].high,
                low: s[i].low,
                close: s[i].close,
                pct_change: opt_i128(pct_changes(s, replace)[i]),
                month_no: s[i].date.month,
                normalized: opt_i128(normalized_column(s, replace)[i]),
                average_norm: opt_i128(average_column(s, replace)[i]),
                true_seasonal: opt_i128(seasonal_column(s, replace)[i]),
            },
    )
}

/// The derived columns of observations already in chronological order.
pub fn derive_rows(obs: &Vec<Observation>, replace_nan_with_zero: bool) -> (r: Vec<DerivedRow>)
    requires
        forall|i: int| 0 <= i < obs.len() ==> (#[trigger] obs[i]).date.wf(),
    ensures
        r@ == derived(obs@, replace_nan_with_zero),
{
    let ghost s = obs@;
    let replace = replace_nan_with_zero;
    let n = obs.len();
    let mut years_v: Vec<i32> = Vec::new();
    let mut months_v: Vec<u32> = Vec::new();
    let mut pct: Vec<Option<i128>> = Vec::new();
    let mut i: usize = 0;
    while i < n
        invariant
            i <= n,
            n == obs.len(),
            s == obs@,
            years_v.len() == i,
            months_v.len() == i,
            pct.len() == i,
            forall|t: int| 0 <= t < obs.len() ==> (#[trigger] obs[t]).date.wf(),
            forall|t: int| 0 <= t < i ==> #[trigger] years_v[t] == s[t].date.year,
            forall|t: int| 0 <= t < i ==> #[trigger] months_v[t] == s[t].date.month,
            forall|t: int|
                0 <= t < i ==> opt_int(#[trigger] pct[t]) == pct_changes(s, replace)[t],
            bounded(pct@),
        decreases n - i,
    {
        let change: Option<i128> = if i == 0 {
            if replace {
                Some(0i128)
            } else {
                None
            }
        } else {
            Some(obs[i].close as i128 - obs[i - 1].close as i128)
        };
        years_v.push(obs[i].date.year);
        months_v.push(obs[i].date.month);
        pct.push(change);
        i = i + 1;
    }
    assert(keys_of(years_v@) =~= years(s));
    assert(vals_of(pct@) =~= pct_changes(s, replace));
    let normalized = normalize_by_group(&years_v, &pct, replace);
    assert(vals_of(normalized@) =~= normalized_column(s, replace));
    assert(months_of(months_v@) =~= months(s));
    let averages = monthly_running_average(&months_v, &normalized);
    let mut avg_opt: Vec<Option<i128>> = Vec::new();
    let mut k: usize = 0;
    while k < n
        invariant
            k <= n,
            averages.len() == n,
            avg_opt.len() == k,
            forall|t: int| 0 <= t < k ==> #[trigger] avg_opt[t] == Some(averages[t]),
        decreases n - k,
    {
        avg_opt.push(Some(averages[k]));
        k = k + 1;
    }
    assert(vals_of(avg_opt@) =~= average_column(s, replace));
    let seasonal = normalize_by_group(&years_v, &avg_opt, replace);
    assert(vals_of(seasonal@) =~= seasonal_column(s, replace));
    let mut r: Vec<DerivedRow> = Vec::new();
    let mut j: usize = 0;
    while j < n
        invariant
            j <= n,
            n == obs.len(),
            s == obs@,
            pct.len() == n,
            normalized.len() == n,
            avg_opt.len() == n,
            seasonal.len() == n,
            vals_of(pct@) == pct_changes(s, replace),
            vals_of(normalized@) == normalized_column(s, replace),
            vals_of(avg_opt@) == average_column(s, replace),
            vals_of(seasonal@) == seasonal_column(s, replace),
            r.len() == j,
            forall|t: int| 0 <= t < j ==> #[trigger] r[t] == derived(s, replace)[t],
        decreases n - j,
    {
        let o = obs[j];
        r.push(
            DerivedRow {
                date: o.date,
                open: o.open,
                high: o.high,
                low: o.low,
                close: o.close,
                pct_change: pct[j],
                month_no: o.date.month,
                normalized: normalized[j],
                average_norm: avg_opt[j],
                true_seasonal: seasonal[j],
            },
        );
        proof {
            let jj = j as int;
            assert(vals_of(pct@)[jj] == opt_int(pct[jj]));
            assert(vals_of(normalized@)[jj] == opt_int(normalized[jj]));
            assert(vals_of(avg_opt@)[jj] == opt_int(avg_opt[jj]));
            assert(vals_of(seasonal@)[jj] == opt_int(seasonal[jj]));
        }
        j = j + 1;
    }
    assert(r@ =~= derived(s, replace));
    r
}

/// Dates never decrease along `s`.
pub open spec fn sorted_by_date(s: Seq<Observation>) -> bool {
    forall|i: int, j: int| 0 <= i < j < s.len() ==> (#[trigger] s[i]).date.spec_le(#[trigger] s[j].date)
}

proof fn lemma_insert_by_date(s: Seq<Observation>, x: Observation)
    requires
        sorted_by_date(s),
    ensures
        sorted_by_date(insert_by_date(s, x)),
        insert_by_date(s, x).to_multiset() == s.to_multiset().insert(x),
        insert_by_date(s, x).len() == s.len() + 1,
    decreases s.len(),
{
    broadcast use vstd::seq_lib::group_to_multiset_ensures;

    if s.len() == 0 {
        assert(seq![x] =~= Seq::<Observation>::empty().push(x));
    } else if s.last().date.spec_le(x.date) {
    } else {
        let t = s.drop_last();
        let last = s.last();
        assert(s =~= t.push(last));
        lemma_insert_by_date(t, x);
        let u = insert_by_date(t, x);
        assert forall|i: int| 0 <= i < u.len() implies (#[trigger] u[i]).date.spec_le(last.date) by {
            assert(u.contains(u[i]));
            assert(u.to_multiset().count(u[i]) > 0);
            if u[i] != x {
                assert(t.to_multiset().count(u[i]) > 0);
                assert(t.contains(u[i]));
                let k = choose|k: int| 0 <= k < t.len() && t[k] == u[i];
                assert(s[k] == t[k]);
                assert(s[s.len() - 1] == last);
            }
        }
        assert(u.push(last).to_multiset() == u.to_multiset().insert(last));
        assert(s.to_multiset() == t.to_multiset().insert(last));
        assert(u.push(last).to_multiset() =~= s.to_multiset().insert(x));
    }
}

/// The stable sort by date orders the dates and keeps every observation.
pub proof fn lemma_sort_by_date(s: Seq<Observation>)
    ensures
        sorted_by_date(sort_by_date(s)),
        sort_by_date(s).to_multiset() == s.to_multiset(),
        sort_by_date(s).len() == s.len(),
    decreases s.len(),
{
    broadcast use vstd::seq_lib::group_to_multiset_ensures;

    if s.len() > 0 {
        lemma_sort_by_date(s.drop_last());
        lemma_insert_by_date(sort_by_date(s.drop_last()), s.last());
        assert(s =~= s.drop_last().push(s.last()));
    }
}

/// Sorting observations that are already in date order leaves them as they are.
pub proof fn lemma_sort_sorted(s: Seq<Observation>)
    requires
        sorted_by_date(s),
    ensures
        sort_by_date(s) == s,
    decreases s.len(),
{
    if s.len() > 0 {
        let t = s.drop_last();
        assert(sorted_by_date(t)) by {
            assert forall|i: int, j: int| 0 <= i < j < t.len() implies (#[trigger] t[i]).date.spec_le(#[trigger] t[j].date) by {
                assert(t[i] == s[i] && t[j] == s[j]);
            }
        }
        lemma_sort_sorted(t);
        if t.len() > 0 {
            assert(t.last() == s[s.len() - 2]);
            assert(s.last() == s[s.len() - 1]);
        }
        assert(t.push(s.last()) =~= s);
    }
}

/// Every element of a sequence of observations with well-formed dates has one.
pub open spec fn all_wf(s: Seq<Observation>) -> bool {
    forall|i: int| 0 <= i < s.len() ==> (#[trigger] s[i]).date.wf()
}

proof fn lemma_sort_keeps_wf(s: Seq<Observation>)
    requires
        all_wf(s),
    ensures
        all_wf(sort_by_date(s)),
{
    broadcast use vstd::seq_lib::group_to_multiset_ensures;

    lemma_sort_by_date(s);
    let t = sort_by_date(s);
    assert forall|i: int| 0 <= i < t.len() implies (#[trigger] t[i]).date.wf() by {
        assert(t.contains(t[i]));
        assert(t.to_multiset().count(t[i]) > 0);
        assert(s.contains(t[i]));
    }
}

/// Sorts observations by date and derives their columns.
pub fn derive_observations(obs: Vec<Observation>, replace_nan_with_zero: bool) -> (r: Vec<
    DerivedRow,
>)
    requires
        all_wf(obs@),
    ensures
        r@ == derived(sort_by_date(obs@), replace_nan_with_zero),
        sorted_by_date(sort_by_date(obs@)),
{
    proof {
        lemma_sort_keeps_wf(obs@);
        lemma_sort_by_date(obs@);
    }
    let sorted = sort_observations(obs);
    derive_rows(&sorted, replace_nan_with_zero)
}

/// Reads each row, drops those whose date cannot be read, sorts the rest by
/// date (stably) and derives their columns under the NaN policy.
pub fn calculate_derived_columns(input: &Vec<RawRow>, replace_nan_with_zero: bool) -> (r: Vec<
    DerivedRow,
>)
    ensures
        r@ == derived(sort_by_date(observations(input@)), replace_nan_with_zero),
        r.len() == observations(input@).len(),
        r.len() <= input.len(),
        forall|i: int, j: int| 0 <= i < j < r.len() ==> (#[trigger] r[i]).date.spec_le(#[trigger] r[j].date),
        forall|i: int| 0 <= i < r.len() ==> (#[trigger] r[i]).month_no == r[i].date.month && 1 <= r[i].month_no <= 12,
        replace_nan_with_zero && r.len() > 0 ==> r[0].pct_change == Some(0i128),
{
    let mut obs: Vec<Observation> = Vec::new();
    let n = input.len();
    let mut i: usize = 0;
    while i < n
        invariant
            i <= n,
            n == input.len(),
            obs@ == observations(input@.take(i as int)),
            obs.len() <= i,
            all_wf(obs@),
        decreases n - i,
    {
        let o = parse_row(&input[i]);
        proof {
            assert(input@.take(i + 1).drop_last() =~= input@.take(i as int));
            assert(input@.take(i + 1).last() == input@[i as int]);
        }
        match o {
            Some(x) => obs.push(x),
            None => {},
        }
        i = i + 1;
    }
    assert(input@.take(n as int) =~= input@);
    proof {
        lemma_sort_keeps_wf(obs@);
        lemma_sort_by_date(obs@);
    }
    let r = derive_observations(obs, replace_nan_with_zero);
    proof {
        let t = sort_by_date(obs@);
        assert forall|i: int| 0 <= i < r.len() implies (#[trigger] r[i]).month_no == r[i].date.month && 1 <= r[i].month_no <= 12 by {
            assert(r[i] == derived(t, replace_nan_with_zero)[i]);
            assert(t[i].date.wf());
        }
        assert forall|i: int, j: int| 0 <= i < j < r.len() implies (#[trigger] r[i]).date.spec_le(#[trigger] r[j].date) by {
            assert(r[i].date == t[i].date && r[j].date == t[j].date);
        }
    }
    r
}

/// Keeps only the date and prices of derived rows.
pub open spec fn stripped(rows: Seq<DerivedRow>) -> Seq<Observation> {
    Seq::new(
        rows.len(),
        |i: int|
            Observation {
                date: rows[i].date,
                open: rows[i].open,
                high: rows[i].high,
                low: rows[i].low,
                close: rows[i].close,
            },
    )
}

/// Keeps only the date and prices of derived rows, for a fresh derivation.
pub fn strip_derived(rows: &Vec<DerivedRow>) -> (r: Vec<Observation>)
    ensures
        r@ == stripped(rows@),
{
    let mut r: Vec<Observation> = Vec::new();
    let mut i: usize = 0;
    while i < rows.len()
        invariant
            i <= rows.len(),
            r.len() == i,
            forall|t: int| 0 <= t < i ==> #[trigger] r[t] == stripped(rows@)[t],
        decreases rows.len() - i,
    {
        let d = rows[i];
        r.push(Observation { date: d.date, open: d.open, high: d.high, low: d.low, close: d.close });
        i = i + 1;
    }
    assert(r@ =~= stripped(rows@));
    r
}

/// Deriving again from the dates and prices of a derivation's output gives
/// the same rows, and so the same change, normalized, average and seasonal
/// columns.
pub proof fn lemma_rederive_same(obs: Seq<Observation>, replace_nan_with_zero: bool)
    ensures
        derived(
            sort_by_date(stripped(derived(sort_by_date(obs), replace_nan_with_zero))),
            replace_nan_with_zero,
        ) == derived(sort_by_date(obs), replace_nan_with_zero),
{
    let t = sort_by_date(obs);
    lemma_sort_by_date(obs);
    assert(stripped(derived(t, replace_nan_with_zero)) =~= t);
    lemma_sort_sorted(t);
}

} // verus!

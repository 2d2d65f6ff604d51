//! Column order of a spreadsheet export.
use vstd::prelude::*;

verus! {

/// The derived-row fields, in the order an export puts them first.
pub open spec fn preferred_headers() -> Seq<Seq<char>> {
    seq![
        "Date"@,
        "Open"@,
        "High"@,
        "Low"@,
        "Close"@,
        "%change"@,
        "M-no"@,
        "normalized"@,
        "Average_Norm"@,
        "True_Seasonal"@,
    ]
}

pub open spec fn views(v: Seq<String>) -> Seq<Seq<char>> {
    v.map_values(|s: String| s@)
}

/// The names of `pref` that occur in `keys`, in the order of `pref`.
pub open spec fn present(pref: Seq<Seq<char>>, keys: Seq<Seq<char>>) -> Seq<Seq<char>>
    decreases pref.len(),
{
    if pref.len() == 0 {
        Seq::empty()
    } else {
        let rest = present(pref.drop_last(), keys);
        if keys.contains(pref.last()) {
            rest.push(pref.last())
        } else {
            rest
        }
    }
}

/// `head` followed by each name of `keys`, in order, that is not already there.
pub open spec fn append_new(head: Seq<Seq<char>>, keys: Seq<Seq<char>>) -> Seq<Seq<char>>
    decreases keys.len(),
{
    if keys.len() == 0 {
        head
    } else {
        let rest = append_new(head, keys.drop_last());
        if rest.contains(keys.last()) {
            rest
        } else {
            rest.push(keys.last())
        }
    }
}

/// The columns of an export whose first row has fields `keys`: the derived-row
/// fields present, in their usual order, then the other fields in the order given.
pub open spec fn export_columns(keys: Seq<Seq<char>>) -> Seq<Seq<char>> {
    append_new(present(preferred_headers(), keys), keys)
}

fn contains_name(v: &Vec<String>, name: &String) -> (r: bool)
    ensures
        r == views(v@).contains(name@),
{
    let mut i: usize = 0;
    while i < v.len()
        invariant
            i <= v.len(),
            forall|j: int| 0 <= j < i ==> (#[trigger] v@[j])@ != name@,
        decreases v.len() - i,
    {
        if v[i] == *name {
            assert(views(v@)[i as int] == name@);
            return true;
        }
        i = i + 1;
    }
    proof {
        if views(v@).contains(name@) {
            let j = choose|j: int| 0 <= j < views(v@).len() && views(v@)[j] == name@;
            assert(v@[j]@ == name@);
        }
    }
    false
}

fn preferred_list() -> (r: Vec<String>)
    ensures
        views(r@) == preferred_headers(),
{
    let r = vec![
        "Date".to_owned(),
        "Open".to_owned(),
        "High".to_owned(),
        "Low".to_owned(),
        "Close".to_owned(),
        "%change".to_owned(),
        "M-no".to_owned(),
        "normalized".to_owned(),
        "Average_Norm".to_owned(),
        "True_Seasonal".to_owned(),
    ];
    assert(views(r@) =~= preferred_headers());
    r
}

/// The column headers of an export whose first row has the fields `keys`.
pub fn export_headers(keys: &Vec<String>) -> (r: Vec<String>)
    ensures
        views(r@) == export_columns(views(keys@)),
{
    let pref = preferred_list();
    let ghost ks = views(keys@);
    let mut r: Vec<String> = Vec::new();
    let mut i: usize = 0;
    while i < pref.len()
        invariant
            i <= pref.len(),
            views(pref@) == preferred_headers(),
            ks == views(keys@),
            views(r@) == present(preferred_headers().take(i as int), ks),
        decreases pref.len() - i,
    {
        proof {
            assert(preferred_headers().take(i + 1).drop_last() =~= preferred_headers().take(
                i as int,
            ));
            assert(views(pref@)[i as int] == pref@[i as int]@);
        }
        if contains_name(keys, &pref[i]) {
            r.push(pref[i].clone());
            assert(views(r@) =~= present(preferred_headers().take(i + 1), ks));
        } else {
            assert(views(r@) =~= present(preferred_headers().take(i + 1), ks));
        }
        i = i + 1;
    }
    assert(preferred_headers().take(10) =~= preferred_headers());
    let ghost head = views(r@);
    let mut k: usize = 0;
    while k < keys.len()
        invariant
            k <= keys.len(),
            ks == views(keys@),
            views(r@) == append_new(head, ks.take(k as int)),
        decreases keys.len() - k,
    {
        proof {
            assert(ks.take(k + 1).drop_last() =~= ks.take(k as int));
            assert(ks[k as int] == keys@[k as int]@);
        }
        if !contains_name(&r, &keys[k]) {
            r.push(keys[k].clone());
            assert(views(r@) =~= append_new(head, ks.take(k + 1)));
        } else {
            assert(views(r@) =~= append_new(head, ks.take(k + 1)));
        }
        k = k + 1;
    }
    assert(ks.take(keys.len() as int) =~= ks);
    r
}

} // verus!

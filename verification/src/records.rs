use vstd::prelude::*;

verus! {

/// For each id of `ids`, whether it is missing from `pool`: the records an import
/// adds (those whose id is not stored yet) and the records a deletion keeps (those
/// whose id is not to be deleted).
pub fn ids_absent(pool: &Vec<u64>, ids: &Vec<u64>) -> (r: Vec<bool>)
    ensures
        r@.len() == ids@.len(),
        forall|k: int| 0 <= k < ids@.len() ==> r@[k] == !pool@.contains(#[trigger] ids@[k]),
{
    let mut r: Vec<bool> = Vec::new();
    let mut k: usize = 0;
    while k < ids.len()
        invariant
            0 <= k <= ids@.len(),
            r@.len() == k,
            forall|t: int| 0 <= t < k ==> r@[t] == !pool@.contains(#[trigger] ids@[t]),
        decreases ids@.len() - k,
    {
        let id = ids[k];
        let mut found = false;
        let mut t: usize = 0;
        while t < pool.len()
            invariant
                0 <= t <= pool@.len(),
                found == exists|u: int| 0 <= u < t && pool@[u] == id,
            decreases pool@.len() - t,
        {
            if pool[t] == id {
                found = true;
            }
            t += 1;
        }
        r.push(!found);
        k += 1;
    }
    r
}

/// The date stamp of an export file name for a time in seconds since 1970: years of
/// 365 days and months of 30, the month capped at 12 and the day at 31.
pub open spec fn date_stamp(secs: u64) -> (u64, u64, u64) {
    let days = secs / 86400;
    let m = (days % 365) / 30 + 1;
    let d = days % 30 + 1;
    ((1970 + days / 365) as u64, if m <= 12 { m as u64 } else { 12 }, if d <= 31 { d as u64 } else { 31 })
}

/// The year, month and day of the default export file name.
pub fn history_date(secs: u64) -> (r: (u64, u64, u64))
    ensures
        r == date_stamp(secs),
{
    let days = secs / 86400;
    let m = (days % 365) / 30 + 1;
    let d = days % 30 + 1;
    (1970 + days / 365, if m <= 12 { m } else { 12 }, if d <= 31 { d } else { 31 })
}

} // verus!

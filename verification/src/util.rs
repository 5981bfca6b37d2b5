//! The clock, and the least of some times.

use vstd::prelude::*;

verus! {

/// `std::time::SystemTime::elapsed` on the Unix epoch: the current system
/// time in nanoseconds since the epoch, or 0 for a clock set before it.
/// Nothing is promised of the value: it differs from call to call.
#[verifier::external_body]
pub fn new_timestamp() -> i64 {
    match std::time::UNIX_EPOCH.elapsed() {
        Ok(since) => since.as_nanos() as i64,
        Err(_) => 0,
    }
}

/// The current system time in nanoseconds since the Unix epoch.
pub fn timestamp_nanos() -> i64 {
    new_timestamp()
}

/// `m` is the least of the values.
pub open spec fn is_least(values: Seq<i64>, m: i64) -> bool {
    &&& exists|i: int| 0 <= i < values.len() && values[i] == m
    &&& forall|i: int| 0 <= i < values.len() ==> m <= values[i]
}

/// The positions among the first `k` values that hold `m`, ascending.
pub open spec fn positions_of(values: Seq<i64>, m: i64, k: int) -> Seq<usize>
    decreases k,
{
    if k <= 0 {
        Seq::empty()
    } else if values[k - 1] == m {
        positions_of(values, m, k - 1).push((k - 1) as usize)
    } else {
        positions_of(values, m, k - 1)
    }
}

/// The least of the values and every position that holds it, ascending.
pub fn arg_min_all2(values: &[i64]) -> (r: (i64, Vec<usize>))
    requires
        values@.len() > 0,
    ensures
        is_least(values@, r.0),
        r.1@ == positions_of(values@, r.0, values@.len() as int),
{
    let mut min = values[0];
    let mut i: usize = 1;
    while i < values.len()
        invariant
            1 <= i <= values@.len(),
            exists|j: int| 0 <= j < i && values@[j] == min,
            forall|j: int| 0 <= j < i ==> min <= values@[j],
        decreases values.len() - i,
    {
        if values[i] < min {
            min = values[i];
        }
        i += 1;
    }
    let mut indices: Vec<usize> = Vec::new();
    let mut k: usize = 0;
    while k < values.len()
        invariant
            k <= values@.len(),
            indices@ == positions_of(values@, min, k as int),
        decreases values.len() - k,
    {
        if values[k] == min {
            indices.push(k);
        }
        k += 1;
    }
    (min, indices)
}

} // verus!

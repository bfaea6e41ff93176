use vstd::prelude::*;

verus! {

/// Flag of a read whose last k-mer is kept in this partition.
pub const READ_FLAG_INCL_END: u8 = 2;

/// The bases of a read whose minimizer decides its sub-partition: a read of
/// exactly `k` bases that does not keep its last k-mer drops its last base,
/// any other read its first.
pub open spec fn spec_minimizer_range(bases_count: usize, k: usize, flags: u8) -> (usize, usize) {
    if bases_count == k && flags & READ_FLAG_INCL_END == 0 {
        (0, (k - 1) as usize)
    } else {
        (1, k)
    }
}

pub fn minimizer_range(bases_count: usize, k: usize, flags: u8) -> (r: (usize, usize))
    requires
        k >= 1,
    ensures
        r == spec_minimizer_range(bases_count, k, flags),
{
    let decr: usize = if bases_count == k && (flags & READ_FLAG_INCL_END) == 0 { 1 } else { 0 };
    (1 - decr, k - decr)
}

/// The position of the first smallest key, or `None` for no keys.
pub fn first_min_index(keys: &Vec<u64>) -> (r: Option<usize>)
    ensures
        r is None <==> keys@.len() == 0,
        r matches Some(i) ==> i < keys@.len()
            && (forall|j: int| 0 <= j < keys@.len() ==> keys@[i as int] <= keys@[j])
            && (forall|j: int| 0 <= j < i ==> keys@[i as int] < keys@[j]),
{
    if keys.len() == 0 {
        return None;
    }
    let mut best: usize = 0;
    let mut j: usize = 1;
    while j < keys.len()
        invariant
            best < j <= keys@.len(),
            forall|q: int| 0 <= q < j ==> keys@[best as int] <= keys@[q],
            forall|q: int| 0 <= q < best ==> keys@[best as int] < keys@[q],
        decreases keys@.len() - j,
    {
        if keys[j] < keys[best] {
            best = j;
        }
        j += 1;
    }
    Some(best)
}

} // verus!

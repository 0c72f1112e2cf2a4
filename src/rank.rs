//! Choice of the factorization rank from the residuals of a scan.

use vstd::prelude::*;

verus! {

pub open spec fn min_usize(a: usize, b: usize) -> usize {
    if a <= b {
        a
    } else {
        b
    }
}

/// The smallest and largest candidate ranks for `n` variants.
pub fn rank_bounds(n: usize) -> (r: (usize, usize))
    ensures
        r.0 == min_usize(4, n),
        r.1 == min_usize(25, n),
{
    let lo = if n < 4 {
        n
    } else {
        4
    };
    let hi = if n < 25 {
        n
    } else {
        25
    };
    (lo, hi)
}

/// Whether `idx` is where a scan of `res` stops: the residuals never rise
/// before it, and the next one (if any) is higher.
pub open spec fn first_local_min(res: Seq<u64>, idx: int) -> bool {
    &&& 0 <= idx < res.len()
    &&& forall|j: int| 0 <= j < idx ==> #[trigger] res[j + 1] <= res[j]
    &&& (idx + 1 == res.len() || res[idx] < res[idx + 1])
}

/// The rank a scan settles on. `residuals[i]` is the residual of rank
/// `min_rank + i`, as a key whose order is that of the residuals. The scan
/// keeps the latest rank whose residual is not above the best so far and
/// stops at the first rise.
pub fn select_rank(residuals: &Vec<u64>, min_rank: usize) -> (r: usize)
    requires
        residuals@.len() >= 1,
        min_rank + residuals@.len() <= usize::MAX,
    ensures
        min_rank <= r,
        first_local_min(residuals@, r - min_rank),
{
    let mut best = residuals[0];
    let mut idx: usize = 0;
    let mut i: usize = 1;
    while i < residuals.len()
        invariant
            1 <= i <= residuals@.len(),
            idx == i - 1,
            best == residuals@[idx as int],
            forall|j: int| 0 <= j < idx ==> #[trigger] residuals@[j + 1] <= residuals@[j],
        ensures
            1 <= i <= residuals@.len(),
            idx == i - 1,
            best == residuals@[idx as int],
            forall|j: int| 0 <= j < idx ==> #[trigger] residuals@[j + 1] <= residuals@[j],
            i == residuals@.len() || residuals@[idx as int] < residuals@[i as int],
        decreases residuals@.len() - i,
    {
        if residuals[i] <= best {
            best = residuals[i];
            idx = i;
        } else {
            break;
        }
        i = i + 1;
    }
    min_rank + idx
}

/// Whether a scan that has seen the residual keys `keys` goes on after the
/// next one, `next`: it stops at the first rise.
pub fn scan_continues(keys: &Vec<u64>, next: u64) -> (b: bool)
    ensures
        b == (keys@.len() == 0 || next <= keys@.last()),
{
    if keys.len() == 0 {
        true
    } else {
        next <= keys[keys.len() - 1]
    }
}

/// The scan settles on exactly one rank: the first local minimum of the
/// residuals, whatever lower residuals come after it.
pub proof fn lemma_first_local_min_unique(res: Seq<u64>, a: int, b: int)
    requires
        first_local_min(res, a),
        first_local_min(res, b),
    ensures
        a == b,
{
    if a < b {
        assert(res[a + 1] <= res[a]);
    } else if b < a {
        assert(res[b + 1] <= res[b]);
    }
}

} // verus!

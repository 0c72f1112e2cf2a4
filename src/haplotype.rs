//! Haplotype reconstruction: posterior routing of variants to clusters, root
//! discovery in an agglomerative merge tree, and the leaves under each root.

use vstd::prelude::*;

verus! {

/// One merge step of a dendrogram: the labels of the two merged clusters and
/// the size of the new one.
#[derive(Clone, Copy, Debug, PartialEq, Eq, Structural)]
pub struct Step {
    pub cluster1: usize,
    pub cluster2: usize,
    pub size: usize,
}

/// An agglomerative merge tree over `steps.len() + 1` leaves. Leaves are
/// labelled `0..n`; the cluster made by step `i` is labelled `n + i`.
pub struct Dendrogram {
    pub steps: Vec<Step>,
}

impl Dendrogram {
    pub open spec fn leaf_count(&self) -> nat {
        self.steps@.len() + 1
    }

    /// Every step merges clusters made before it.
    pub open spec fn wf(&self) -> bool {
        forall|i: int|
            0 <= i < self.steps@.len() ==> #[trigger] self.steps@[i].cluster1 < self.leaf_count()
                + i && self.steps@[i].cluster2 < self.leaf_count() + i
    }

    /// The leaves under `label`, left subtree first.
    pub open spec fn leaves_of(&self, label: int) -> Seq<usize>
        decreases label,
    {
        if label < 0 || label >= self.leaf_count() + self.steps@.len() {
            seq![]
        } else if label < self.leaf_count() {
            seq![label as usize]
        } else {
            let s = self.steps@[label - self.leaf_count()];
            if s.cluster1 < label && s.cluster2 < label {
                self.leaves_of(s.cluster1 as int) + self.leaves_of(s.cluster2 as int)
            } else {
                seq![]
            }
        }
    }
}

/// Position of the first largest label.
pub open spec fn max_pos(s: Seq<usize>) -> int
    decreases s.len(),
{
    if s.len() <= 1 {
        0
    } else {
        let p = max_pos(s.drop_last());
        if s.last() > s[p] {
            s.len() - 1
        } else {
            p
        }
    }
}

/// The labels after one expansion: the largest label gives way to its two
/// children.
pub open spec fn expand(d: Dendrogram, s: Seq<usize>) -> Seq<usize> {
    let p = max_pos(s);
    let st = d.steps@[s[p] - d.leaf_count()];
    s.remove(p).push(st.cluster1).push(st.cluster2)
}

/// The labels once `s` has been expanded until it holds `k` of them; `None`
/// where the largest label to expand is a leaf.
pub open spec fn expand_to(d: Dendrogram, s: Seq<usize>, k: nat) -> Option<Seq<usize>>
    decreases k - s.len(),
    via expand_to_decreases
{
    if s.len() >= k || s.len() == 0 {
        Some(s)
    } else if s[max_pos(s)] < d.leaf_count() || s[max_pos(s)] >= d.leaf_count()
        + d.steps@.len() {
        None
    } else {
        expand_to(d, expand(d, s), k)
    }
}

#[via_fn]
proof fn expand_to_decreases(d: Dendrogram, s: Seq<usize>, k: nat) {
    if s.len() > 0 {
        lemma_max_pos(s);
    }
}

/// The `k` cluster roots of a dendrogram: one synthetic root (the final merge)
/// for `k == 1`, else the two children of the final merge expanded, largest
/// label first, until `k` labels remain.
pub open spec fn roots_spec(d: Dendrogram, k: nat) -> Option<Seq<usize>> {
    let n = d.steps@.len();
    if k == 1 {
        Some(seq![(2 * n) as usize])
    } else {
        let last = d.steps@[n - 1];
        expand_to(d, seq![last.cluster1, last.cluster2], k)
    }
}

proof fn lemma_max_pos(s: Seq<usize>)
    requires
        s.len() > 0,
    ensures
        0 <= max_pos(s) < s.len(),
        forall|j: int| 0 <= j < s.len() ==> #[trigger] s[j] <= s[max_pos(s)],
        forall|j: int| 0 <= j < max_pos(s) ==> #[trigger] s[j] < s[max_pos(s)],
    decreases s.len(),
{
    if s.len() > 1 {
        let t = s.drop_last();
        lemma_max_pos(t);
        let p = max_pos(t);
        assert(forall|j: int| 0 <= j < t.len() ==> #[trigger] t[j] == s[j]);
        assert forall|j: int| 0 <= j < s.len() implies #[trigger] s[j] <= s[max_pos(s)] by {
            if j < t.len() {
                assert(t[j] <= t[p]);
            }
        }
        assert forall|j: int| 0 <= j < max_pos(s) implies #[trigger] s[j] < s[max_pos(s)] by {
            if s.last() > s[p] {
                assert(t[j] <= t[p]);
            } else {
                assert(t[j] < t[p]);
            }
        }
    }
}

fn find_max_pos(s: &Vec<usize>) -> (p: usize)
    requires
        s@.len() > 0,
    ensures
        p == max_pos(s@),
{
    let mut p: usize = 0;
    let mut i: usize = 1;
    while i < s.len()
        invariant
            1 <= i <= s@.len(),
            p == max_pos(s@.take(i as int)),
        decreases s@.len() - i,
    {
        proof {
            lemma_max_pos(s@.take(i as int));
            assert(s@.take(i + 1).drop_last() =~= s@.take(i as int));
        }
        if s[i] > s[p] {
            p = i;
        }
        i = i + 1;
    }
    assert(s@.take(i as int) =~= s@);
    p
}

/// The `k` cluster root labels of the dendrogram; `None` where the tree runs
/// out of merges before `k` roots are found.
pub fn find_cluster_roots(d: &Dendrogram, k: usize) -> (r: Option<Vec<usize>>)
    requires
        1 <= d.steps@.len() <= usize::MAX / 2,
        k >= 1,
    ensures
        r matches Some(v) ==> roots_spec(*d, k as nat) == Some(v@),
        r is None ==> roots_spec(*d, k as nat) is None,
{
    let n = d.steps.len();
    let mut r: Vec<usize> = Vec::new();
    if k == 1 {
        r.push(n + n);
        assert(r@ =~= seq![(2 * n) as usize]);
        return Some(r);
    }
    let last = d.steps[n - 1];
    r.push(last.cluster1);
    r.push(last.cluster2);
    assert(r@ =~= seq![last.cluster1, last.cluster2]);
    let ghost target = roots_spec(*d, k as nat);
    while r.len() < k
        invariant
            n == d.steps@.len(),
            2 <= r@.len(),
            expand_to(*d, r@, k as nat) == target,
            target == roots_spec(*d, k as nat),
        decreases k - r@.len(),
    {
        let p = find_max_pos(&r);
        proof {
            lemma_max_pos(r@);
        }
        let label = r[p];
        if label <= n || label - n - 1 >= n {
            assert(expand_to(*d, r@, k as nat) is None);
            return None;
        }
        let st = d.steps[label - n - 1];
        let ghost before = r@;
        r.remove(p);
        r.push(st.cluster1);
        r.push(st.cluster2);
        proof {
            assert(r@ =~= expand(*d, before));
        }
    }
    Some(r)
}

/// Whether every merge step uses only clusters made before it.
pub fn merges_ordered(d: &Dendrogram) -> (b: bool)
    requires
        d.steps@.len() <= usize::MAX / 2,
    ensures
        b == d.wf(),
{
    let n1 = d.steps.len() + 1;
    let mut i: usize = 0;
    while i < d.steps.len()
        invariant
            n1 == d.leaf_count(),
            d.steps@.len() <= usize::MAX / 2,
            i <= d.steps@.len(),
            forall|j: int|
                0 <= j < i ==> #[trigger] d.steps@[j].cluster1 < d.leaf_count() + j
                    && d.steps@[j].cluster2 < d.leaf_count() + j,
        decreases d.steps@.len() - i,
    {
        let st = d.steps[i];
        if st.cluster1 >= n1 + i || st.cluster2 >= n1 + i {
            assert(!(d.steps@[i as int].cluster1 < d.leaf_count() + i && d.steps@[i as int].cluster2
                < d.leaf_count() + i));
            return false;
        }
        i = i + 1;
    }
    true
}

/// Appends the leaves under `label` to `out`.
pub fn collect_leaves(d: &Dendrogram, label: usize, out: &mut Vec<usize>)
    requires
        d.steps@.len() <= usize::MAX / 2,
    ensures
        final(out)@ == old(out)@ + d.leaves_of(label as int),
    decreases label,
{
    let n1 = d.steps.len() + 1;
    if label >= n1 + d.steps.len() {
        assert(old(out)@ + d.leaves_of(label as int) =~= old(out)@);
        return;
    }
    if label < n1 {
        out.push(label);
        assert(old(out)@ + d.leaves_of(label as int) =~= old(out)@.push(label));
        return;
    }
    let s = d.steps[label - n1];
    if s.cluster1 < label && s.cluster2 < label {
        let ghost o = old(out)@;
        collect_leaves(d, s.cluster1, out);
        collect_leaves(d, s.cluster2, out);
        assert(o + d.leaves_of(label as int) =~= o + d.leaves_of(s.cluster1 as int)
            + d.leaves_of(s.cluster2 as int));
    } else {
        assert(old(out)@ + d.leaves_of(label as int) =~= old(out)@);
    }
}

/// A reconstructed haplotype: a root label, the leaf (variant) indices under
/// it, and the strain index it was given.
pub struct Haplotype {
    pub root_cluster_id: usize,
    pub variant_indices: Vec<usize>,
    pub haplotype_index: usize,
}

/// Why a dendrogram gave no haplotypes.
#[derive(Clone, Copy, Debug, PartialEq, Eq, Structural)]
pub enum HaplotypeError {
    /// Some merge step uses a cluster made at or after it.
    MergeOrder,
    /// Root discovery had to expand a leaf.
    TooFewMerges,
    /// The leaves under the roots do not cover every leaf exactly once.
    NotAPartition,
}

pub open spec fn earlier(h: int, i: int, hh: int, ii: int) -> bool {
    h < hh || (h == hh && i < ii)
}

/// Whether some leaf list of `hs` holds `x`.
pub open spec fn covered(hs: Seq<Seq<usize>>, x: int) -> bool {
    exists|h: int, i: int| 0 <= h < hs.len() && 0 <= i < hs[h].len() && hs[h][i] == x
}

/// Whether the leaf lists of `hs` cover `0..n` with every leaf exactly once.
pub open spec fn is_partition(hs: Seq<Seq<usize>>, n: nat) -> bool {
    &&& forall|h: int, i: int|
        0 <= h < hs.len() && 0 <= i < hs[h].len() ==> #[trigger] hs[h][i] < n
    &&& forall|x: int| 0 <= x < n ==> #[trigger] covered(hs, x)
    &&& forall|h1: int, i1: int, h2: int, i2: int|
        0 <= h1 < hs.len() && 0 <= i1 < hs[h1].len() && 0 <= h2 < hs.len() && 0 <= i2
            < hs[h2].len() && #[trigger] hs[h1][i1] == #[trigger] hs[h2][i2] ==> h1 == h2 && i1
            == i2
}

pub open spec fn leaf_lists(hs: Seq<Haplotype>) -> Seq<Seq<usize>> {
    hs.map_values(|h: Haplotype| h.variant_indices@)
}

/// Whether the leaf lists `hs` cover `0..n` exactly once each.
pub fn check_partition(hs: &Vec<Haplotype>, n: usize) -> (b: bool)
    ensures
        b == is_partition(leaf_lists(hs@), n as nat),
{
    let ghost ls = leaf_lists(hs@);
    let mut seen: Vec<bool> = Vec::new();
    while seen.len() < n
        invariant
            seen@.len() <= n,
            forall|x: int| 0 <= x < seen@.len() ==> !#[trigger] seen@[x],
        decreases n - seen@.len(),
    {
        seen.push(false);
    }
    let mut h: usize = 0;
    while h < hs.len()
        invariant
            ls == leaf_lists(hs@),
            ls.len() == hs@.len(),
            h <= hs@.len(),
            seen@.len() == n,
            forall|a: int, i: int|
                0 <= a < ls.len() && 0 <= i < ls[a].len() && earlier(a, i, h as int, 0)
                    ==> #[trigger] ls[a][i] < n && seen@[ls[a][i] as int],
            forall|x: int|
                0 <= x < n && #[trigger] seen@[x] ==> exists|a: int, i: int|
                    0 <= a < ls.len() && 0 <= i < ls[a].len() && earlier(a, i, h as int, 0)
                        && ls[a][i] == x,
            forall|h1: int, i1: int, h2: int, i2: int|
                0 <= h1 < ls.len() && 0 <= i1 < ls[h1].len() && 0 <= h2 < ls.len() && 0 <= i2
                    < ls[h2].len() && earlier(h1, i1, h as int, 0) && earlier(h2, i2, h as int, 0)
                    && #[trigger] ls[h1][i1] == #[trigger] ls[h2][i2] ==> h1 == h2 && i1 == i2,
        decreases hs@.len() - h,
    {
        let leaves = &hs[h].variant_indices;
        assert(ls[h as int] == leaves@);
        let mut i: usize = 0;
        while i < leaves.len()
            invariant
                ls == leaf_lists(hs@),
                ls.len() == hs@.len(),
                h < hs@.len(),
                ls[h as int] == leaves@,
                i <= leaves@.len(),
                seen@.len() == n,
                forall|a: int, j: int|
                    0 <= a < ls.len() && 0 <= j < ls[a].len() && earlier(a, j, h as int, i as int)
                        ==> #[trigger] ls[a][j] < n && seen@[ls[a][j] as int],
                forall|x: int|
                    0 <= x < n && #[trigger] seen@[x] ==> exists|a: int, j: int|
                        0 <= a < ls.len() && 0 <= j < ls[a].len() && earlier(
                            a,
                            j,
                            h as int,
                            i as int,
                        ) && ls[a][j] == x,
                forall|h1: int, i1: int, h2: int, i2: int|
                    0 <= h1 < ls.len() && 0 <= i1 < ls[h1].len() && 0 <= h2 < ls.len() && 0
                        <= i2 < ls[h2].len() && earlier(h1, i1, h as int, i as int) && earlier(
                        h2,
                        i2,
                        h as int,
                        i as int,
                    ) && #[trigger] ls[h1][i1] == #[trigger] ls[h2][i2] ==> h1 == h2 && i1 == i2,
            decreases leaves@.len() - i,
        {
            let x = leaves[i];
            if x >= n {
                assert(ls[h as int][i as int] == x);
                return false;
            }
            if seen[x] {
                let ghost w = choose|a: int, j: int|
                    0 <= a < ls.len() && 0 <= j < ls[a].len() && earlier(a, j, h as int, i as int)
                        && ls[a][j] == x;
                assert(ls[h as int][i as int] == x);
                assert(ls[w.0][w.1] == ls[h as int][i as int]);
                return false;
            }
            seen.set(x, true);
            proof {
                assert(ls[h as int][i as int] == x);
                assert forall|x2: int| 0 <= x2 < n && #[trigger] seen@[x2] implies exists|
                    a: int,
                    j: int,
                |
                    0 <= a < ls.len() && 0 <= j < ls[a].len() && earlier(
                        a,
                        j,
                        h as int,
                        i + 1,
                    ) && ls[a][j] == x2 by {
                    if x2 == x {
                        assert(earlier(h as int, i as int, h as int, i + 1));
                    } else {
                        let w = choose|a: int, j: int|
                            0 <= a < ls.len() && 0 <= j < ls[a].len() && earlier(
                                a,
                                j,
                                h as int,
                                i as int,
                            ) && ls[a][j] == x2;
                        assert(earlier(w.0, w.1, h as int, i + 1));
                    }
                }
            }
            i = i + 1;
        }
        proof {
            assert forall|a: int, j: int|
                0 <= a < ls.len() && 0 <= j < ls[a].len() && earlier(a, j, h + 1, 0) implies
                earlier(a, j, h as int, i as int) by {
            }
            assert forall|x2: int| 0 <= x2 < n && #[trigger] seen@[x2] implies exists|
                a: int,
                j: int,
            | 0 <= a < ls.len() && 0 <= j < ls[a].len() && earlier(a, j, h + 1, 0) && ls[a][j]
                == x2 by {
                let w = choose|a: int, j: int|
                    0 <= a < ls.len() && 0 <= j < ls[a].len() && earlier(a, j, h as int, i as int)
                        && ls[a][j] == x2;
                assert(earlier(w.0, w.1, h + 1, 0));
            }
        }
        h = h + 1;
    }
    let mut x: usize = 0;
    while x < n
        invariant
            seen@.len() == n,
            x <= n,
            forall|y: int| 0 <= y < x ==> #[trigger] seen@[y],
            ls == leaf_lists(hs@),
            ls.len() == hs@.len(),
            forall|a: int, i: int|
                0 <= a < ls.len() && 0 <= i < ls[a].len() && earlier(a, i, hs@.len() as int, 0)
                    ==> #[trigger] ls[a][i] < n && seen@[ls[a][i] as int],
            forall|y: int|
                0 <= y < n && #[trigger] seen@[y] ==> exists|a: int, i: int|
                    0 <= a < ls.len() && 0 <= i < ls[a].len() && earlier(
                        a,
                        i,
                        hs@.len() as int,
                        0,
                    ) && ls[a][i] == y,
            forall|h1: int, i1: int, h2: int, i2: int|
                0 <= h1 < ls.len() && 0 <= i1 < ls[h1].len() && 0 <= h2 < ls.len() && 0 <= i2
                    < ls[h2].len() && earlier(h1, i1, hs@.len() as int, 0) && earlier(
                    h2,
                    i2,
                    hs@.len() as int,
                    0,
                ) && #[trigger] ls[h1][i1] == #[trigger] ls[h2][i2] ==> h1 == h2 && i1 == i2,
        decreases n - x,
    {
        if !seen[x] {
            proof {
                assert forall|a: int, i: int|
                    0 <= a < ls.len() && 0 <= i < ls[a].len() implies #[trigger] ls[a][i] != x by {
                    assert(earlier(a, i, hs@.len() as int, 0));
                }
                assert(!covered(ls, x as int));
            }
            return false;
        }
        x = x + 1;
    }
    proof {
        assert forall|a: int, i: int|
            0 <= a < ls.len() && 0 <= i < ls[a].len() implies #[trigger] ls[a][i] < n by {
            assert(earlier(a, i, hs@.len() as int, 0));
        }
        assert forall|x2: int| 0 <= x2 < n implies #[trigger] covered(ls, x2) by {
            assert(seen@[x2]);
            let w = choose|a: int, j: int|
                0 <= a < ls.len() && 0 <= j < ls[a].len() && earlier(a, j, hs@.len() as int, 0)
                    && ls[a][j] == x2;
            assert(ls[w.0][w.1] == x2);
        }
        assert forall|h1: int, i1: int, h2: int, i2: int|
            0 <= h1 < ls.len() && 0 <= i1 < ls[h1].len() && 0 <= h2 < ls.len() && 0 <= i2
                < ls[h2].len() && #[trigger] ls[h1][i1] == #[trigger] ls[h2][i2] implies h1 == h2
                && i1 == i2 by {
            assert(earlier(h1, i1, hs@.len() as int, 0));
            assert(earlier(h2, i2, hs@.len() as int, 0));
        }
    }
    true
}

/// The haplotypes of the `k` cluster roots, each with the leaves under it,
/// provided these leaves cover every leaf exactly once.
pub fn reconstruct_haplotypes(d: &Dendrogram, k: usize) -> (r: Result<
    Vec<Haplotype>,
    HaplotypeError,
>)
    requires
        1 <= d.steps@.len() <= usize::MAX / 2,
        k >= 1,
    ensures
        r == Err::<Vec<Haplotype>, HaplotypeError>(HaplotypeError::MergeOrder) <==> !d.wf(),
        match r {
            Ok(hs) => roots_spec(*d, k as nat) matches Some(roots) && hs@.len() == roots.len()
                && (forall|i: int|
                0 <= i < hs@.len() ==> #[trigger] hs@[i].root_cluster_id == roots[i]
                    && hs@[i].variant_indices@ == d.leaves_of(roots[i] as int)
                    && hs@[i].haplotype_index == i) && is_partition(
                leaf_lists(hs@),
                d.leaf_count(),
            ),
            Err(HaplotypeError::MergeOrder) => !d.wf(),
            Err(HaplotypeError::TooFewMerges) => d.wf() && roots_spec(*d, k as nat) is None,
            Err(HaplotypeError::NotAPartition) => d.wf() && (roots_spec(*d, k as nat) matches Some(
                roots,
            ) && !is_partition(
                Seq::new(roots.len(), |i: int| d.leaves_of(roots[i] as int)),
                d.leaf_count(),
            )),
        },
{
    if !merges_ordered(d) {
        return Err(HaplotypeError::MergeOrder);
    }
    let roots = match find_cluster_roots(d, k) {
        Some(v) => v,
        None => return Err(HaplotypeError::TooFewMerges),
    };
    let mut hs: Vec<Haplotype> = Vec::new();
    let mut i: usize = 0;
    while i < roots.len()
        invariant
            d.steps@.len() <= usize::MAX / 2,
            i <= roots@.len(),
            hs@.len() == i,
            forall|j: int|
                0 <= j < i ==> #[trigger] hs@[j].root_cluster_id == roots@[j]
                    && hs@[j].variant_indices@ == d.leaves_of(roots@[j] as int)
                    && hs@[j].haplotype_index == j,
        decreases roots@.len() - i,
    {
        let mut leaves: Vec<usize> = Vec::new();
        collect_leaves(d, roots[i], &mut leaves);
        assert(leaves@ =~= d.leaves_of(roots@[i as int] as int));
        hs.push(Haplotype { root_cluster_id: roots[i], variant_indices: leaves, haplotype_index: i });
        i = i + 1;
    }
    let n1 = d.steps.len() + 1;
    if check_partition(&hs, n1) {
        Ok(hs)
    } else {
        assert(hs@.len() == roots@.len());
        assert forall|j: int| 0 <= j < hs@.len() implies #[trigger] leaf_lists(hs@)[j]
            == d.leaves_of(roots@[j] as int) by {
            assert(hs@[j].root_cluster_id == roots@[j]);
        }
        assert(leaf_lists(hs@) =~= Seq::new(
            roots@.len(),
            |i: int| d.leaves_of(roots@[i] as int),
        ));
        Err(HaplotypeError::NotAPartition)
    }
}

/// A posterior probability as an exact ratio `num / den`.
#[derive(Clone, Copy, Debug, PartialEq, Eq, Structural)]
pub struct Posterior {
    pub num: u64,
    pub den: u64,
}

/// The factorization's verdict on one variant: its top cluster and the
/// posterior probability of that cluster.
#[derive(Clone, Copy, Debug, PartialEq, Eq, Structural)]
pub struct Prediction {
    pub cluster: u64,
    pub posterior: Posterior,
}

/// Whether a posterior reaches `1 / k`.
pub open spec fn reaches_share(p: Posterior, k: nat) -> bool {
    p.num * k >= p.den
}

/// The cluster a variant is given to: its top cluster where the posterior is
/// at least `1 / k`, else `None` (the bucket shared by every strain).
pub fn route_variant(cluster: u64, posterior: Posterior, k: usize) -> (r: Option<u64>)
    ensures
        r == (if reaches_share(posterior, k as nat) {
            Some(cluster)
        } else {
            None::<u64>
        }),
{
    let a = posterior.num as u128;
    let b = k as u128;
    assert(a * b <= 0xffff_ffff_ffff_ffff_u128 * 0xffff_ffff_ffff_ffff_u128) by (nonlinear_arith)
        requires
            a <= 0xffff_ffff_ffff_ffff_u128,
            b <= 0xffff_ffff_ffff_ffff_u128,
    ;
    if a * b >= posterior.den as u128 {
        Some(cluster)
    } else {
        None
    }
}

/// The distinct cluster ids among `ids`, in order of first appearance.
pub fn distinct_clusters(ids: &Vec<u64>) -> (r: Vec<u64>)
    ensures
        r@.no_duplicates(),
        r@.to_set() == ids@.to_set(),
        r@.len() == ids@.to_set().len(),
{
    let mut r: Vec<u64> = Vec::new();
    let mut i: usize = 0;
    while i < ids.len()
        invariant
            i <= ids@.len(),
            r@.no_duplicates(),
            r@.to_set() == ids@.take(i as int).to_set(),
        decreases ids@.len() - i,
    {
        let x = ids[i];
        let mut found = false;
        let mut j: usize = 0;
        while j < r.len()
            invariant
                j <= r@.len(),
                found == (exists|q: int| 0 <= q < j && r@[q] == x),
            decreases r@.len() - j,
        {
            if r[j] == x {
                found = true;
            }
            j = j + 1;
        }
        assert(ids@.take(i + 1) =~= ids@.take(i as int).push(x));
        let ghost before = r@;
        if !found {
            r.push(x);
        }
        proof {
            let t0 = ids@.take(i as int);
            let t1 = ids@.take(i + 1);
            assert(before.to_set().contains(x) == before.contains(x));
            assert(found == before.contains(x));
            if !found {
                assert forall|m: int, n: int|
                    0 <= m < r@.len() && 0 <= n < r@.len() && m != n implies r@[m] != r@[n] by {
                    if m < before.len() && n < before.len() {
                    } else if m < before.len() {
                        assert(before.contains(before[m]));
                    } else {
                        assert(before.contains(before[n]));
                    }
                }
            }
            assert forall|y| #[trigger] r@.contains(y) <==> t1.contains(y) by {
                if r@.contains(y) {
                    let m = choose|m: int| 0 <= m < r@.len() && r@[m] == y;
                    if m < before.len() {
                        assert(before[m] == y);
                        assert(before.to_set().contains(y));
                        assert(t0.to_set().contains(y));
                        let q = choose|q: int| 0 <= q < t0.len() && t0[q] == y;
                        assert(t1[q] == y);
                    } else {
                        assert(t1[i as int] == x);
                    }
                }
                if t1.contains(y) {
                    let q = choose|q: int| 0 <= q < t1.len() && t1[q] == y;
                    if q < i {
                        assert(t0[q] == y);
                        assert(t0.to_set().contains(y));
                        assert(before.to_set().contains(y));
                        let m = choose|m: int| 0 <= m < before.len() && before[m] == y;
                        assert(r@[m] == y);
                    } else if found {
                        let m = choose|m: int| 0 <= m < before.len() && before[m] == x;
                        assert(r@[m] == y);
                    } else {
                        assert(r@[r@.len() - 1] == y);
                    }
                }
            }
            assert(r@.to_set() =~= t1.to_set());
        }
        i = i + 1;
    }
    assert(ids@.take(i as int) =~= ids@);
    proof {
        r@.unique_seq_to_set();
    }
    r
}

pub open spec fn cluster_ids(preds: Seq<Prediction>) -> Seq<u64> {
    preds.map_values(|p: Prediction| p.cluster)
}

/// Routes every variant: `k` is the number of distinct clusters reported.
pub fn route_predictions(preds: &Vec<Prediction>) -> (r: Vec<Option<u64>>)
    ensures
        r@.len() == preds@.len(),
        forall|i: int|
            0 <= i < r@.len() ==> #[trigger] r@[i] == (if reaches_share(
                preds@[i].posterior,
                cluster_ids(preds@).to_set().len(),
            ) {
                Some(preds@[i].cluster)
            } else {
                None::<u64>
            }),
{
    let mut ids: Vec<u64> = Vec::new();
    let mut i: usize = 0;
    while i < preds.len()
        invariant
            i <= preds@.len(),
            ids@ == cluster_ids(preds@.take(i as int)),
        decreases preds@.len() - i,
    {
        ids.push(preds[i].cluster);
        assert(cluster_ids(preds@.take(i + 1)) =~= cluster_ids(preds@.take(i as int)).push(
            preds@[i as int].cluster,
        ));
        i = i + 1;
    }
    assert(preds@.take(i as int) =~= preds@);
    let k = distinct_clusters(&ids).len();
    let mut r: Vec<Option<u64>> = Vec::new();
    let mut j: usize = 0;
    while j < preds.len()
        invariant
            j <= preds@.len(),
            k == cluster_ids(preds@).to_set().len(),
            r@.len() == j,
            forall|m: int|
                0 <= m < j ==> #[trigger] r@[m] == (if reaches_share(preds@[m].posterior, k as nat) {
                    Some(preds@[m].cluster)
                } else {
                    None::<u64>
                }),
        decreases preds@.len() - j,
    {
        r.push(route_variant(preds[j].cluster, preds[j].posterior, k));
        j = j + 1;
    }
    r
}

} // verus!

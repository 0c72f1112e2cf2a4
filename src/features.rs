//! Per-variant feature vectors: for every non-reference site of a contig, the
//! pseudo-counted depth and variant count of each sample.

use vstd::prelude::*;

use crate::bytes::{bytes_equal, contains_byte, copy_bytes};
use crate::matrix::{
    prior_observations, recorded, ContigAggregate, PileupMatrix, PileupStats, PositionVariants,
    VariantObservation,
};

verus! {

broadcast use vstd::std_specs::hash::group_hash_axioms;

/// The features of one variant site: per sample, depth + 1 and variant
/// count + 1.
pub struct FeatureRow {
    pub position: i64,
    pub key: Vec<u8>,
    pub depths: Vec<u64>,
    pub freqs: Vec<u64>,
}

/// The reference placeholder holds an `R`.
pub open spec fn is_reference_key(key: Seq<u8>) -> bool {
    key.contains('R' as u8)
}

/// (count, depth) of the first call with `key` in `vs`.
pub open spec fn lookup_in(vs: Seq<VariantObservation>, key: Seq<u8>) -> Option<(u32, u32)>
    decreases vs.len(),
{
    if vs.len() == 0 {
        None
    } else if vs[0].key@ == key {
        Some((vs[0].count, vs[0].depth))
    } else {
        lookup_in(vs.skip(1), key)
    }
}

/// (count, depth) of the first call with `key` at `pos` in `ps`.
pub open spec fn lookup_ps(ps: Seq<PositionVariants>, pos: int, key: Seq<u8>) -> Option<
    (u32, u32),
>
    decreases ps.len(),
{
    if ps.len() == 0 {
        None
    } else if ps[0].position == pos && lookup_in(ps[0].variants@, key) is Some {
        lookup_in(ps[0].variants@, key)
    } else {
        lookup_ps(ps.skip(1), pos, key)
    }
}

/// What sample `s` observed of the site: (0, 0) where it has nothing there.
pub open spec fn sample_obs(c: ContigAggregate, s: int, pos: int, key: Seq<u8>) -> (u32, u32) {
    match c.abundances@[s] {
        Some(ps) => match lookup_ps(ps@, pos, key) {
            Some(x) => x,
            None => (0u32, 0u32),
        },
        None => (0u32, 0u32),
    }
}

/// Whether `r` holds the pseudo-counted observations of every sample of `c`.
pub open spec fn row_ok(c: ContigAggregate, r: FeatureRow) -> bool {
    &&& r.depths@.len() == c.sample_count()
    &&& r.freqs@.len() == c.sample_count()
    &&& forall|s: int|
        0 <= s < c.sample_count() ==> #[trigger] r.freqs@[s] == sample_obs(
            c,
            s,
            r.position as int,
            r.key@,
        ).0 + 1 && r.depths@[s] == sample_obs(c, s, r.position as int, r.key@).1 + 1
}

/// The non-reference sites among the first `upto` calls of a position.
pub open spec fn entry_sites(p: PositionVariants, upto: int) -> Set<(int, Seq<u8>)> {
    Set::new(
        |t: (int, Seq<u8>)|
            exists|j: int|
                0 <= j < upto && !is_reference_key(p.variants@[j].key@) && t == (
                    p.position as int,
                    p.variants@[j].key@,
                ),
    )
}

/// The non-reference sites of a list of positions.
pub open spec fn sites_in(ps: Seq<PositionVariants>) -> Set<(int, Seq<u8>)> {
    Set::new(
        |t: (int, Seq<u8>)|
            exists|i: int|
                0 <= i < ps.len() && #[trigger] entry_sites(ps[i], ps[i].variants@.len() as int).contains(
                    t,
                ),
    )
}

/// The non-reference sites that samples `0..upto` observed on `c`.
pub open spec fn contig_sites(c: ContigAggregate, upto: int) -> Set<(int, Seq<u8>)> {
    Set::new(
        |t: (int, Seq<u8>)|
            exists|s: int|
                0 <= s < upto && #[trigger] c.abundances@[s] is Some && sites_in(
                    c.abundances@[s]->Some_0@,
                ).contains(t),
    )
}

pub open spec fn row_site(r: FeatureRow) -> (int, Seq<u8>) {
    (r.position as int, r.key@)
}

pub open spec fn row_sites(rows: Seq<FeatureRow>) -> Set<(int, Seq<u8>)> {
    Set::new(|t: (int, Seq<u8>)| exists|k: int| 0 <= k < rows.len() && row_site(rows[k]) == t)
}

pub open spec fn rows_unique(rows: Seq<FeatureRow>) -> bool {
    forall|a: int, b: int|
        0 <= a < rows.len() && 0 <= b < rows.len() && a != b ==> row_site(#[trigger] rows[a])
            != row_site(#[trigger] rows[b])
}

/// Whether `rows` are the feature rows of contig `c`: one per non-reference
/// site that some sample observed, each with every sample's values.
pub open spec fn contig_features_ok(c: ContigAggregate, rows: Seq<FeatureRow>) -> bool {
    &&& row_sites(rows) == contig_sites(c, c.sample_count() as int)
    &&& rows_unique(rows)
    &&& forall|k: int| 0 <= k < rows.len() ==> #[trigger] row_ok(c, rows[k])
}

fn find_in(vs: &Vec<VariantObservation>, key: &Vec<u8>) -> (r: Option<(u32, u32)>)
    ensures
        r == lookup_in(vs@, key@),
{
    let mut j: usize = 0;
    assert(vs@.skip(0) =~= vs@);
    while j < vs.len()
        invariant
            j <= vs@.len(),
            lookup_in(vs@, key@) == lookup_in(vs@.skip(j as int), key@),
        decreases vs@.len() - j,
    {
        assert(vs@.skip(j as int).skip(1) =~= vs@.skip(j + 1));
        if bytes_equal(&vs[j].key, key) {
            return Some((vs[j].count, vs[j].depth));
        }
        j = j + 1;
    }
    None
}

fn find_ps(ps: &Vec<PositionVariants>, pos: i64, key: &Vec<u8>) -> (r: Option<(u32, u32)>)
    ensures
        r == lookup_ps(ps@, pos as int, key@),
{
    let mut i: usize = 0;
    assert(ps@.skip(0) =~= ps@);
    while i < ps.len()
        invariant
            i <= ps@.len(),
            lookup_ps(ps@, pos as int, key@) == lookup_ps(ps@.skip(i as int), pos as int, key@),
        decreases ps@.len() - i,
    {
        assert(ps@.skip(i as int).skip(1) =~= ps@.skip(i + 1));
        if ps[i].position == pos {
            let f = find_in(&ps[i].variants, key);
            if f.is_some() {
                return f;
            }
        }
        i = i + 1;
    }
    None
}

fn make_row(c: &ContigAggregate, pos: i64, key: &Vec<u8>) -> (r: FeatureRow)
    requires
        c.wf(),
    ensures
        row_ok(*c, r),
        r.position == pos,
        r.key@ == key@,
{
    let n = c.coverages.len();
    let mut depths: Vec<u64> = Vec::new();
    let mut freqs: Vec<u64> = Vec::new();
    let mut s: usize = 0;
    while s < n
        invariant
            c.wf(),
            n == c.sample_count(),
            s <= n,
            depths@.len() == s,
            freqs@.len() == s,
            forall|t: int|
                0 <= t < s ==> #[trigger] freqs@[t] == sample_obs(*c, t, pos as int, key@).0 + 1
                    && depths@[t] == sample_obs(*c, t, pos as int, key@).1 + 1,
        decreases n - s,
    {
        let obs: (u32, u32) = match &c.abundances[s] {
            Some(ps) => match find_ps(ps, pos, key) {
                Some(x) => x,
                None => (0, 0),
            },
            None => (0, 0),
        };
        freqs.push(obs.0 as u64 + 1);
        depths.push(obs.1 as u64 + 1);
        s = s + 1;
    }
    FeatureRow { position: pos, key: copy_bytes(key), depths, freqs }
}

fn has_site(rows: &Vec<FeatureRow>, pos: i64, key: &Vec<u8>) -> (b: bool)
    ensures
        b == row_sites(rows@).contains((pos as int, key@)),
{
    let mut k: usize = 0;
    while k < rows.len()
        invariant
            k <= rows@.len(),
            forall|m: int| 0 <= m < k ==> row_site(#[trigger] rows@[m]) != (pos as int, key@),
        decreases rows@.len() - k,
    {
        if rows[k].position == pos && bytes_equal(&rows[k].key, key) {
            assert(row_site(rows@[k as int]) == (pos as int, key@));
            return true;
        }
        k = k + 1;
    }
    false
}

/// Adds a row for each non-reference call of `p` whose site `rows` lacks.
fn add_entry_sites(c: &ContigAggregate, p: &PositionVariants, rows: &mut Vec<FeatureRow>)
    requires
        c.wf(),
        rows_unique(old(rows)@),
        forall|k: int| 0 <= k < old(rows)@.len() ==> #[trigger] row_ok(*c, old(rows)@[k]),
    ensures
        row_sites(final(rows)@) == row_sites(old(rows)@).union(
            entry_sites(*p, p.variants@.len() as int),
        ),
        rows_unique(final(rows)@),
        forall|k: int| 0 <= k < final(rows)@.len() ==> #[trigger] row_ok(*c, final(rows)@[k]),
{
    let vs = &p.variants;
    let mut j: usize = 0;
    assert(row_sites(rows@) =~= row_sites(old(rows)@).union(entry_sites(*p, 0)));
    while j < vs.len()
        invariant
            c.wf(),
            vs == &p.variants,
            j <= vs@.len(),
            row_sites(rows@) == row_sites(old(rows)@).union(entry_sites(*p, j as int)),
            rows_unique(rows@),
            forall|k: int| 0 <= k < rows@.len() ==> #[trigger] row_ok(*c, rows@[k]),
        decreases vs@.len() - j,
    {
        let key = &vs[j].key;
        let ghost before = rows@;
        let ghost site = (p.position as int, key@);
        if !contains_byte(key, 'R' as u8) && !has_site(rows, p.position, key) {
            let row = make_row(c, p.position, key);
            rows.push(row);
            proof {
                assert forall|a: int, b: int|
                    0 <= a < rows@.len() && 0 <= b < rows@.len() && a != b implies row_site(
                        #[trigger] rows@[a],
                    ) != row_site(#[trigger] rows@[b]) by {
                    if a == before.len() && b < before.len() {
                        assert(row_sites(before).contains(row_site(before[b])));
                    } else if b == before.len() && a < before.len() {
                        assert(row_sites(before).contains(row_site(before[a])));
                    } else {
                        assert(rows@[a] == before[a] && rows@[b] == before[b]);
                    }
                }
                assert forall|k: int| 0 <= k < rows@.len() implies #[trigger] row_ok(*c, rows@[k]) by {
                    if k < before.len() {
                        assert(rows@[k] == before[k]);
                    }
                }
                assert(row_sites(rows@) =~= row_sites(before).insert(site)) by {
                    assert forall|t| row_sites(rows@).contains(t) implies row_sites(before).insert(
                        site,
                    ).contains(t) by {
                        let k = choose|k: int| 0 <= k < rows@.len() && row_site(rows@[k]) == t;
                        if k < before.len() {
                            assert(row_site(before[k]) == t);
                        }
                    }
                    assert forall|t| row_sites(before).insert(site).contains(t) implies row_sites(
                        rows@,
                    ).contains(t) by {
                        if t == site {
                            assert(row_site(rows@[before.len() as int]) == t);
                        } else {
                            let k = choose|k: int| 0 <= k < before.len() && row_site(before[k]) == t;
                            assert(row_site(rows@[k]) == t);
                        }
                    }
                }
            }
        }
        proof {
            let e0 = entry_sites(*p, j as int);
            let e1 = entry_sites(*p, j + 1);
            assert forall|t| e1.contains(t) <==> e0.contains(t) || (!is_reference_key(key@) && t
                == site) by {
                if e1.contains(t) {
                    let m = choose|m: int|
                        0 <= m < j + 1 && !is_reference_key(p.variants@[m].key@) && t == (
                            p.position as int,
                            p.variants@[m].key@,
                        );
                    if m < j {
                        assert(e0.contains(t));
                    }
                }
                if e0.contains(t) {
                    let m = choose|m: int|
                        0 <= m < j && !is_reference_key(p.variants@[m].key@) && t == (
                            p.position as int,
                            p.variants@[m].key@,
                        );
                    assert(e1.contains(t));
                }
                if !is_reference_key(key@) && t == site {
                    assert(p.variants@[j as int].key@ == key@);
                    assert(e1.contains(t));
                }
            }
            assert(row_sites(rows@) =~= row_sites(old(rows)@).union(e1));
        }
        j = j + 1;
    }
}

/// The feature rows of contig `c`.
pub fn contig_features(c: &ContigAggregate) -> (rows: Vec<FeatureRow>)
    requires
        c.wf(),
    ensures
        contig_features_ok(*c, rows@),
{
    let n = c.abundances.len();
    let mut rows: Vec<FeatureRow> = Vec::new();
    let mut s: usize = 0;
    assert(row_sites(rows@) =~= contig_sites(*c, 0));
    while s < n
        invariant
            c.wf(),
            n == c.sample_count(),
            s <= n,
            row_sites(rows@) == contig_sites(*c, s as int),
            rows_unique(rows@),
            forall|k: int| 0 <= k < rows@.len() ==> #[trigger] row_ok(*c, rows@[k]),
        decreases n - s,
    {
        match &c.abundances[s] {
            Some(ps) => {
                let mut i: usize = 0;
                assert(sites_in(ps@.take(0)) =~= Set::empty());
                assert(row_sites(rows@) =~= contig_sites(*c, s as int).union(
                    sites_in(ps@.take(0)),
                ));
                while i < ps.len()
                    invariant
                        c.wf(),
                        n == c.sample_count(),
                        s < n,
                        i <= ps@.len(),
                        row_sites(rows@) == contig_sites(*c, s as int).union(
                            sites_in(ps@.take(i as int)),
                        ),
                        rows_unique(rows@),
                        forall|k: int| 0 <= k < rows@.len() ==> #[trigger] row_ok(*c, rows@[k]),
                    decreases ps@.len() - i,
                {
                    add_entry_sites(c, &ps[i], &mut rows);
                    proof {
                        let a = ps@.take(i as int);
                        let b = ps@.take(i + 1);
                        let e = entry_sites(ps@[i as int], ps@[i as int].variants@.len() as int);
                        assert forall|t| sites_in(b).contains(t) <==> sites_in(a).contains(t)
                            || e.contains(t) by {
                            if sites_in(b).contains(t) {
                                let q = choose|q: int|
                                    0 <= q < b.len() && #[trigger] entry_sites(
                                        b[q],
                                        b[q].variants@.len() as int,
                                    ).contains(t);
                                if q < i {
                                    assert(b[q] == a[q]);
                                    assert(sites_in(a).contains(t));
                                }
                            }
                            if sites_in(a).contains(t) {
                                let q = choose|q: int|
                                    0 <= q < a.len() && #[trigger] entry_sites(
                                        a[q],
                                        a[q].variants@.len() as int,
                                    ).contains(t);
                                assert(b[q] == a[q]);
                                assert(sites_in(b).contains(t));
                            }
                            if e.contains(t) {
                                assert(b[i as int] == ps@[i as int]);
                                assert(sites_in(b).contains(t));
                            }
                        }
                        assert(row_sites(rows@) =~= contig_sites(*c, s as int).union(sites_in(b)));
                    }
                    i = i + 1;
                }
                proof {
                    assert(ps@.take(i as int) =~= ps@);
                    assert forall|t| contig_sites(*c, s + 1).contains(t) <==> contig_sites(
                        *c,
                        s as int,
                    ).contains(t) || sites_in(ps@).contains(t) by {
                        if contig_sites(*c, s + 1).contains(t) {
                            let q = choose|q: int|
                                0 <= q < s + 1 && #[trigger] c.abundances@[q] is Some && sites_in(
                                    c.abundances@[q]->Some_0@,
                                ).contains(t);
                            if q < s {
                                assert(contig_sites(*c, s as int).contains(t));
                            }
                        }
                        if contig_sites(*c, s as int).contains(t) {
                            let q = choose|q: int|
                                0 <= q < s && #[trigger] c.abundances@[q] is Some && sites_in(
                                    c.abundances@[q]->Some_0@,
                                ).contains(t);
                            assert(contig_sites(*c, s + 1).contains(t));
                        }
                        if sites_in(ps@).contains(t) {
                            assert(c.abundances@[s as int] is Some);
                            assert(contig_sites(*c, s + 1).contains(t));
                        }
                    }
                    assert(row_sites(rows@) =~= contig_sites(*c, s + 1));
                }
            },
            None => {
                proof {
                    assert forall|t| contig_sites(*c, s + 1).contains(t) implies contig_sites(
                        *c,
                        s as int,
                    ).contains(t) by {
                        let q = choose|q: int|
                            0 <= q < s + 1 && #[trigger] c.abundances@[q] is Some && sites_in(
                                c.abundances@[q]->Some_0@,
                            ).contains(t);
                        assert(q != s);
                    }
                    assert forall|t| contig_sites(*c, s as int).contains(t) implies contig_sites(
                        *c,
                        s + 1,
                    ).contains(t) by {
                        let q = choose|q: int|
                            0 <= q < s && #[trigger] c.abundances@[q] is Some && sites_in(
                                c.abundances@[q]->Some_0@,
                            ).contains(t);
                    }
                    assert(row_sites(rows@) =~= contig_sites(*c, s + 1));
                }
            },
        }
        s = s + 1;
    }
    rows
}

/// The feature rows of every contig, in the order the contigs were first
/// recorded.
pub fn variant_features(m: &PileupMatrix) -> (r: Vec<Vec<FeatureRow>>)
    requires
        m.wf(),
    ensures
        r@.len() == m.contig_ids@.len(),
        forall|i: int|
            0 <= i < r@.len() ==> contig_features_ok(
                m.contigs@[m.contig_ids@[i]],
                #[trigger] r@[i]@,
            ),
{
    let mut r: Vec<Vec<FeatureRow>> = Vec::new();
    let mut i: usize = 0;
    while i < m.contig_ids.len()
        invariant
            m.wf(),
            i <= m.contig_ids@.len(),
            r@.len() == i,
            forall|j: int|
                0 <= j < i ==> contig_features_ok(m.contigs@[m.contig_ids@[j]], #[trigger] r@[j]@),
        decreases m.contig_ids@.len() - i,
    {
        let tid = m.contig_ids[i];
        assert(m.contig_ids@.contains(tid));
        assert(m.contigs@.contains_key(tid));
        match m.contigs.get(&tid) {
            Some(c) => {
                let rows = contig_features(c);
                r.push(rows);
            },
            None => {
                assert(false);
                r.push(Vec::new());
            },
        }
        i = i + 1;
    }
    r
}

/// Total number of rows.
pub open spec fn total_rows(f: Seq<Vec<FeatureRow>>) -> int
    decreases f.len(),
{
    if f.len() == 0 {
        0
    } else {
        total_rows(f.drop_last()) + f.last()@.len()
    }
}

proof fn lemma_total_rows_monotone(f: Seq<Vec<FeatureRow>>, i: int)
    requires
        0 <= i <= f.len(),
    ensures
        total_rows(f.take(i)) <= total_rows(f),
    decreases f.len(),
{
    if i < f.len() {
        assert(f.drop_last().take(i) =~= f.take(i));
        lemma_total_rows_monotone(f.drop_last(), i);
    } else {
        assert(f.take(i) =~= f);
    }
}

/// Whether the features hold at least two variants: with fewer the population
/// shows no heterogeneity and no factorization is run.
pub fn has_heterogeneity(f: &Vec<Vec<FeatureRow>>) -> (b: bool)
    ensures
        b == (total_rows(f@) >= 2),
{
    let mut count: usize = 0;
    let mut i: usize = 0;
    while i < f.len()
        invariant
            i <= f@.len(),
            count == total_rows(f@.take(i as int)),
            count < 2,
        decreases f@.len() - i,
    {
        assert(f@.take(i + 1).drop_last() =~= f@.take(i as int));
        let l = f[i].len();
        if l >= 2 - count {
            proof {
                lemma_total_rows_monotone(f@, i + 1);
            }
            return true;
        }
        count = count + l;
        i = i + 1;
    }
    assert(f@.take(i as int) =~= f@);
    false
}

proof fn lemma_lookup_concat(a: Seq<PositionVariants>, b: Seq<PositionVariants>, pos: int, key: Seq<u8>)
    ensures
        lookup_ps(a + b, pos, key) == (if lookup_ps(a, pos, key) is Some {
            lookup_ps(a, pos, key)
        } else {
            lookup_ps(b, pos, key)
        }),
    decreases a.len(),
{
    if a.len() == 0 {
        assert(a + b =~= b);
    } else {
        assert((a + b)[0] == a[0]);
        assert((a + b).skip(1) =~= a.skip(1) + b);
        lemma_lookup_concat(a.skip(1), b, pos, key);
    }
}

/// After a record for sample `idx`, the sample's (count, depth) at a site is
/// the pair that the record brought, or, where the record has none there,
/// the pair the sample had before.
pub proof fn lemma_record_observation(
    o: ContigAggregate,
    stats: PileupStats,
    contig: Seq<u8>,
    n: nat,
    idx: int,
    c: ContigAggregate,
    pos: int,
    key: Seq<u8>,
)
    requires
        0 <= idx < n,
        o.wf(),
        o.sample_count() == n,
        recorded(Some(o), stats, contig, n, idx, c),
    ensures
        sample_obs(c, idx, pos, key) == match lookup_ps(stats.variant_abundances@, pos, key) {
            Some(x) => x,
            None => sample_obs(o, idx, pos, key),
        },
{
    lemma_lookup_concat(stats.variant_abundances@, prior_observations(o, idx), pos, key);
    assert(lookup_ps(Seq::<PositionVariants>::empty(), pos, key) is None);
}

} // verus!

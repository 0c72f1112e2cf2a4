//! The population matrix: per-contig, per-sample statistics merged from
//! upstream pileups.

use std::collections::HashMap;

use vstd::prelude::*;

use crate::bytes::{
    bytes_equal, bytes_less, bytes_lt, copy_bytes, lemma_bytes_lt_total, lemma_bytes_lt_trans,
};

verus! {

broadcast use vstd::std_specs::hash::group_hash_axioms;

/// An exact ratio `num / den`.
#[derive(Clone, Copy, Debug, PartialEq, Eq, Structural)]
pub struct Fraction {
    pub num: i128,
    pub den: u64,
}

/// One allele call at a position, with its read count and the position's depth.
pub struct VariantObservation {
    pub key: Vec<u8>,
    pub count: u32,
    pub depth: u32,
}

/// All variant calls that one sample has at one contig position.
pub struct PositionVariants {
    pub position: i64,
    pub variants: Vec<VariantObservation>,
}

/// One read supporting one allele at one position.
pub struct ReadSupport {
    pub position: i64,
    pub allele: Vec<u8>,
    pub read: i64,
}

/// The per-position table of one sample on one contig: variant frequency,
/// total depth and reference frequency, each with a pseudocount.
pub struct SumTable {
    pub var_freq: Vec<Fraction>,
    pub depth: Vec<u64>,
    pub ref_freq: Vec<Fraction>,
}

/// The statistics of one contig in one sample. The three scalar statistics
/// are IEEE-754 single-precision bit patterns, carried unchanged.
pub struct PileupStats {
    pub tid: u32,
    pub target_name: String,
    pub target_len: u64,
    pub coverage: u32,
    pub variance: u32,
    pub mean_genotypes: u32,
    pub variant_abundances: Vec<PositionVariants>,
    pub indels: Vec<ReadSupport>,
    pub nucfrequency: Vec<ReadSupport>,
}

/// Everything recorded of one contig, over all samples.
pub struct ContigAggregate {
    pub name: String,
    pub length: u64,
    pub sequence: Vec<u8>,
    pub coverages: Vec<u32>,
    pub variances: Vec<u32>,
    pub genotypes: Vec<u32>,
    pub abundances: Vec<Option<Vec<PositionVariants>>>,
    pub variant_counts: Vec<Option<usize>>,
    pub sums: Vec<Option<SumTable>>,
    pub snps: Vec<ReadSupport>,
    pub indels: Vec<ReadSupport>,
}

/// One row of the k-mer table: a k-mer and its count in each contig.
pub struct KmerRow {
    pub kmer: Vec<u8>,
    pub counts: Vec<usize>,
}

/// The population matrix.
pub struct PileupMatrix {
    pub sample_names: Vec<String>,
    pub contig_ids: Vec<u32>,
    pub contigs: HashMap<u32, ContigAggregate>,
    pub kfrequencies: Vec<KmerRow>,
    /// The contigs whose k-mer counts the table holds.
    pub kmer_contigs: Vec<u32>,
}

// ---- the model -------------------------------------------------------------

pub open spec fn support_view(r: ReadSupport) -> (int, Seq<u8>, int) {
    (r.position as int, r.allele@, r.read as int)
}

/// The set of (position, allele, read) triples that a list of records holds.
pub open spec fn support_set(v: Seq<ReadSupport>) -> Set<(int, Seq<u8>, int)> {
    Set::new(|t: (int, Seq<u8>, int)| exists|i: int| 0 <= i < v.len() && support_view(v[i]) == t)
}

/// Sum of the read counts of a list of calls.
pub open spec fn count_sum(vs: Seq<VariantObservation>) -> int
    decreases vs.len(),
{
    if vs.len() == 0 {
        0
    } else {
        count_sum(vs.drop_last()) + vs.last().count
    }
}

/// Total depth of a position, with its pseudocount: the depth of its last
/// call plus one (zero where it has no call).
pub open spec fn position_depth(p: PositionVariants) -> int {
    if p.variants@.len() == 0 {
        0
    } else {
        p.variants@.last().depth + 1
    }
}

/// Whether row `i` of `t` holds what position `p` gives: variant frequency
/// (count sum + 1) / depth, the depth, and reference frequency
/// (depth - (count sum + 1)) / depth.
pub open spec fn row_matches(t: SumTable, i: int, p: PositionVariants) -> bool {
    &&& t.var_freq@[i].num == count_sum(p.variants@) + 1
    &&& t.var_freq@[i].den == position_depth(p)
    &&& t.depth@[i] == position_depth(p)
    &&& t.ref_freq@[i].num == position_depth(p) - (count_sum(p.variants@) + 1)
    &&& t.ref_freq@[i].den == position_depth(p)
}

/// Whether `t` is the sum table of the positions `ps`: one row per position,
/// or a single zero row where there is none.
pub open spec fn sum_table_of(t: SumTable, ps: Seq<PositionVariants>) -> bool {
    if ps.len() == 0 {
        &&& t.var_freq@ == seq![Fraction { num: 0, den: 1 }]
        &&& t.depth@ == seq![0u64]
        &&& t.ref_freq@ == seq![Fraction { num: 0, den: 1 }]
    } else {
        &&& t.var_freq@.len() == ps.len()
        &&& t.depth@.len() == ps.len()
        &&& t.ref_freq@.len() == ps.len()
        &&& forall|i: int| 0 <= i < ps.len() ==> #[trigger] row_matches(t, i, ps[i])
    }
}

impl ContigAggregate {
    /// Number of sample slots of this contig.
    pub open spec fn sample_count(&self) -> nat {
        self.coverages@.len()
    }

    pub open spec fn wf(&self) -> bool {
        &&& self.variances@.len() == self.sample_count()
        &&& self.genotypes@.len() == self.sample_count()
        &&& self.abundances@.len() == self.sample_count()
        &&& self.variant_counts@.len() == self.sample_count()
        &&& self.sums@.len() == self.sample_count()
    }
}

impl PileupMatrix {
    pub open spec fn wf(&self) -> bool {
        &&& self.contig_ids@.no_duplicates()
        &&& forall|t: u32| #[trigger]
            self.contigs@.contains_key(t) <==> self.contig_ids@.contains(t)
        &&& forall|t: u32| #[trigger] self.contigs@.contains_key(t) ==> self.contigs@[t].wf()
    }

    /// Whether contig `tid` may take statistics for `sample_count` samples.
    pub open spec fn fits(&self, tid: u32, sample_count: usize) -> bool {
        self.contigs@.contains_key(tid) ==> self.contigs@[tid].sample_count() == sample_count
    }
}

// ---- building ----------------------------------------------------------------

fn zeros_u32(n: usize) -> (r: Vec<u32>)
    ensures
        r@ == Seq::new(n as nat, |i: int| 0u32),
{
    let mut r: Vec<u32> = Vec::new();
    while r.len() < n
        invariant
            r@.len() <= n,
            forall|i: int| 0 <= i < r@.len() ==> r@[i] == 0u32,
        decreases n - r@.len(),
    {
        r.push(0);
    }
    assert(r@ =~= Seq::new(n as nat, |i: int| 0u32));
    r
}

fn empty_slots<T>(n: usize) -> (r: Vec<Option<T>>)
    ensures
        r@.len() == n,
        forall|i: int| 0 <= i < n ==> r@[i] is None,
{
    let mut r: Vec<Option<T>> = Vec::new();
    while r.len() < n
        invariant
            r@.len() <= n,
            forall|i: int| 0 <= i < r@.len() ==> r@[i] is None,
        decreases n - r@.len(),
    {
        r.push(None);
    }
    r
}

/// The sum-table row of one position.
fn position_row(p: &PositionVariants) -> (r: (Fraction, u64, Fraction))
    ensures
        r.0.num == count_sum(p.variants@) + 1,
        r.0.den == position_depth(*p),
        r.1 == position_depth(*p),
        r.2.num == position_depth(*p) - (count_sum(p.variants@) + 1),
        r.2.den == position_depth(*p),
{
    let vs = &p.variants;
    let mut acc: i128 = 0;
    let mut depth: u64 = 0;
    let mut j: usize = 0;
    while j < vs.len()
        invariant
            j <= vs@.len(),
            acc == count_sum(vs@.take(j as int)),
            0 <= acc <= j * 4294967295,
            j == 0 ==> depth == 0,
            j > 0 ==> depth == vs@[j - 1].depth + 1,
        decreases vs@.len() - j,
    {
        assert(vs@.take(j + 1).drop_last() =~= vs@.take(j as int));
        acc = acc + vs[j].count as i128;
        depth = vs[j].depth as u64 + 1;
        j = j + 1;
    }
    assert(vs@.take(j as int) =~= vs@);
    let den = depth;
    let var_num = acc + 1;
    let ref_num = depth as i128 - var_num;
    (Fraction { num: var_num, den }, depth, Fraction { num: ref_num, den })
}

/// The sum table of one sample's positions on one contig.
pub fn sum_table(ps: &Vec<PositionVariants>) -> (r: SumTable)
    ensures
        sum_table_of(r, ps@),
{
    if ps.len() == 0 {
        let mut var_freq: Vec<Fraction> = Vec::new();
        var_freq.push(Fraction { num: 0, den: 1 });
        let mut depth: Vec<u64> = Vec::new();
        depth.push(0);
        let mut ref_freq: Vec<Fraction> = Vec::new();
        ref_freq.push(Fraction { num: 0, den: 1 });
        proof {
            assert(var_freq@ =~= seq![Fraction { num: 0, den: 1 }]);
            assert(depth@ =~= seq![0u64]);
            assert(ref_freq@ =~= seq![Fraction { num: 0, den: 1 }]);
        }
        return SumTable { var_freq, depth, ref_freq };
    }
    let mut t = SumTable { var_freq: Vec::new(), depth: Vec::new(), ref_freq: Vec::new() };
    let mut i: usize = 0;
    while i < ps.len()
        invariant
            i <= ps@.len(),
            t.var_freq@.len() == i,
            t.depth@.len() == i,
            t.ref_freq@.len() == i,
            forall|k: int| 0 <= k < i ==> #[trigger] row_matches(t, k, ps@[k]),
        decreases ps@.len() - i,
    {
        let row = position_row(&ps[i]);
        let ghost t0 = t;
        t.var_freq.push(row.0);
        t.depth.push(row.1);
        t.ref_freq.push(row.2);
        i = i + 1;
        assert forall|k: int| 0 <= k < i implies #[trigger] row_matches(t, k, ps@[k]) by {
            if k < i - 1 {
                assert(row_matches(t0, k, ps@[k]));
                assert(t.var_freq@[k] == t0.var_freq@[k]);
                assert(t.depth@[k] == t0.depth@[k]);
                assert(t.ref_freq@[k] == t0.ref_freq@[k]);
            }
        }
    }
    t
}

fn copy_support(r: &ReadSupport) -> (c: ReadSupport)
    ensures
        support_view(c) == support_view(*r),
{
    ReadSupport { position: r.position, allele: copy_bytes(&r.allele), read: r.read }
}

fn holds_support(v: &Vec<ReadSupport>, r: &ReadSupport) -> (b: bool)
    ensures
        b == support_set(v@).contains(support_view(*r)),
{
    let mut i: usize = 0;
    while i < v.len()
        invariant
            i <= v@.len(),
            forall|j: int| 0 <= j < i ==> support_view(#[trigger] v@[j]) != support_view(*r),
        decreases v@.len() - i,
    {
        if v[i].position == r.position && v[i].read == r.read && bytes_equal(
            &v[i].allele,
            &r.allele,
        ) {
            assert(support_view(v@[i as int]) == support_view(*r));
            return true;
        }
        i = i + 1;
    }
    false
}

/// Adds to `dst` each record of `src` whose triple it does not hold yet.
pub fn union_support(dst: &mut Vec<ReadSupport>, src: &Vec<ReadSupport>)
    ensures
        support_set(final(dst)@) == support_set(old(dst)@).union(support_set(src@)),
{
    let mut i: usize = 0;
    while i < src.len()
        invariant
            i <= src@.len(),
            support_set(dst@) == support_set(old(dst)@).union(support_set(src@.take(i as int))),
        decreases src@.len() - i,
    {
        let ghost before = dst@;
        let r = &src[i];
        if !holds_support(dst, r) {
            let c = copy_support(r);
            dst.push(c);
            assert(support_set(dst@) =~= support_set(before).insert(support_view(*r))) by {
                assert forall|t| support_set(dst@).contains(t) implies support_set(
                    before,
                ).insert(support_view(*r)).contains(t) by {
                    let j = choose|j: int| 0 <= j < dst@.len() && support_view(dst@[j]) == t;
                    if j < before.len() {
                        assert(support_set(before).contains(t));
                    }
                }
                assert forall|t| support_set(before).insert(support_view(*r)).contains(
                    t,
                ) implies support_set(dst@).contains(t) by {
                    if t == support_view(*r) {
                        assert(support_view(dst@[before.len() as int]) == t);
                    } else {
                        let j = choose|j: int| 0 <= j < before.len() && support_view(before[j]) == t;
                        assert(support_view(dst@[j]) == t);
                    }
                }
            }
        }
        proof {
            let s0 = src@.take(i as int);
            let s1 = src@.take(i + 1);
            assert(support_set(s1) =~= support_set(s0).insert(support_view(src@[i as int]))) by {
                assert forall|t| support_set(s1).contains(t) implies support_set(s0).insert(
                    support_view(src@[i as int]),
                ).contains(t) by {
                    let j = choose|j: int| 0 <= j < s1.len() && support_view(s1[j]) == t;
                    if j < i {
                        assert(support_view(s0[j]) == t);
                    }
                }
                assert forall|t| support_set(s0).insert(support_view(src@[i as int])).contains(
                    t,
                ) implies support_set(s1).contains(t) by {
                    if t == support_view(src@[i as int]) {
                        assert(support_view(s1[i as int]) == t);
                    } else {
                        let j = choose|j: int| 0 <= j < s0.len() && support_view(s0[j]) == t;
                        assert(support_view(s1[j]) == t);
                    }
                }
            }
            assert(support_set(dst@) =~= support_set(old(dst)@).union(support_set(s1)));
        }
        i = i + 1;
    }
    assert(src@.take(src@.len() as int) =~= src@);
}

/// What recording `stats` for sample `idx` makes of a contig entry `c` (or of
/// a fresh entry for `n` samples, where the contig is new).
/// The observations that slot `idx` of `c` held, empty where it held none.
pub open spec fn prior_observations(c: ContigAggregate, idx: int) -> Seq<PositionVariants> {
    match c.abundances@[idx] {
        Some(ps) => ps@,
        None => seq![],
    }
}

/// What recording `stats` for sample `idx` makes of a contig entry: the
/// scalar slots, the sum table and the variant count of the sample are
/// overwritten; the sample's observations become the new positions followed
/// by the earlier ones, so that a lookup finds a new pair first and still
/// finds an earlier pair that the new call lacks; the read-support sets grow
/// by union; name, length and sequence keep their first values.
pub open spec fn recorded(
    old_entry: Option<ContigAggregate>,
    stats: PileupStats,
    contig: Seq<u8>,
    n: nat,
    idx: int,
    c: ContigAggregate,
) -> bool {
    &&& c.wf()
    &&& c.sample_count() == n
    &&& match old_entry {
        Some(o) => {
            &&& c.name@ == o.name@
            &&& c.length == o.length
            &&& c.sequence@ == o.sequence@
            &&& c.coverages@ == o.coverages@.update(idx, stats.coverage)
            &&& c.variances@ == o.variances@.update(idx, stats.variance)
            &&& c.genotypes@ == o.genotypes@.update(idx, stats.mean_genotypes)
            &&& forall|j: int|
                0 <= j < n && j != idx ==> #[trigger] c.abundances@[j] == o.abundances@[j]
                    && c.sums@[j] == o.sums@[j] && c.variant_counts@[j] == o.variant_counts@[j]
            &&& c.abundances@[idx] matches Some(v) && v@ == stats.variant_abundances@
                + prior_observations(o, idx)
            &&& support_set(c.snps@) == support_set(o.snps@).union(support_set(stats.nucfrequency@))
            &&& support_set(c.indels@) == support_set(o.indels@).union(support_set(stats.indels@))
        },
        None => {
            &&& c.name@ == stats.target_name@
            &&& c.length == stats.target_len
            &&& c.sequence@ == contig
            &&& c.coverages@ == Seq::new(n, |j: int| 0u32).update(idx, stats.coverage)
            &&& c.variances@ == Seq::new(n, |j: int| 0u32).update(idx, stats.variance)
            &&& c.genotypes@ == Seq::new(n, |j: int| 0u32).update(idx, stats.mean_genotypes)
            &&& forall|j: int|
                0 <= j < n && j != idx ==> #[trigger] c.abundances@[j] is None && c.sums@[j] is None
                    && c.variant_counts@[j] is None
            &&& c.abundances@[idx] matches Some(v) && v@ == stats.variant_abundances@
            &&& support_set(c.snps@) == support_set(stats.nucfrequency@)
            &&& support_set(c.indels@) == support_set(stats.indels@)
        },
    }
    &&& c.variant_counts@[idx] == Some(stats.variant_abundances@.len() as usize)
    &&& c.sums@[idx] matches Some(t) && sum_table_of(t, stats.variant_abundances@)
}

impl PileupMatrix {
    /// An empty matrix.
    pub fn new_matrix() -> (r: PileupMatrix)
        ensures
            r.wf(),
            r.sample_names@.len() == 0,
            r.contig_ids@.len() == 0,
            r.contigs@.len() == 0,
            r.kfrequencies@.len() == 0,
            r.kmer_contigs@.len() == 0,
    {
        PileupMatrix {
            sample_names: Vec::new(),
            contig_ids: Vec::new(),
            contigs: HashMap::new(),
            kfrequencies: Vec::new(),
            kmer_contigs: Vec::new(),
        }
    }

    /// Clears every table of the matrix.
    pub fn setup(&mut self)
        ensures
            final(self).wf(),
            final(self).sample_names@.len() == 0,
            final(self).contig_ids@.len() == 0,
            final(self).contigs@.len() == 0,
            final(self).kfrequencies@.len() == 0,
            final(self).kmer_contigs@.len() == 0,
    {
        self.sample_names = Vec::new();
        self.contig_ids = Vec::new();
        self.contigs = HashMap::new();
        self.kfrequencies = Vec::new();
        self.kmer_contigs = Vec::new();
    }

    /// Registers the next sample; its index is the number registered before.
    pub fn add_sample(&mut self, sample_name: String)
        ensures
            final(self).sample_names@ == old(self).sample_names@.push(sample_name),
            final(self).contig_ids@ == old(self).contig_ids@,
            final(self).contigs@ == old(self).contigs@,
            final(self).kfrequencies@ == old(self).kfrequencies@,
            final(self).kmer_contigs@ == old(self).kmer_contigs@,
    {
        self.sample_names.push(sample_name);
    }

    /// Merges the statistics of one contig in sample `sample_idx`: the scalar
    /// slots and the sample's positions and sum table are overwritten, the
    /// read-support sets grow by union, and name, length and sequence keep
    /// the values that the contig's first call gave.
    pub fn add_contig(
        &mut self,
        pileup_stats: PileupStats,
        sample_count: usize,
        sample_idx: usize,
        contig: Vec<u8>,
    )
        requires
            old(self).wf(),
            sample_idx < sample_count,
            old(self).fits(pileup_stats.tid, sample_count),
        ensures
            final(self).wf(),
            final(self).sample_names@ == old(self).sample_names@,
            final(self).kfrequencies@ == old(self).kfrequencies@,
            final(self).kmer_contigs@ == old(self).kmer_contigs@,
            final(self).contigs@.dom() == old(self).contigs@.dom().insert(pileup_stats.tid),
            final(self).contig_ids@ == if old(self).contigs@.contains_key(pileup_stats.tid) {
                old(self).contig_ids@
            } else {
                old(self).contig_ids@.push(pileup_stats.tid)
            },
            forall|t: u32|
                #![trigger final(self).contigs@[t]]
                old(self).contigs@.contains_key(t) && t != pileup_stats.tid
                    ==> final(self).contigs@[t] == old(self).contigs@[t],
            recorded(
                if old(self).contigs@.contains_key(pileup_stats.tid) {
                    Some(old(self).contigs@[pileup_stats.tid])
                } else {
                    None
                },
                pileup_stats,
                contig@,
                sample_count as nat,
                sample_idx as int,
                final(self).contigs@[pileup_stats.tid],
            ),
    {
        let ghost stats0 = pileup_stats;
        let ghost old_map = self.contigs@;
        let tid = pileup_stats.tid;
        let table = sum_table(&pileup_stats.variant_abundances);
        let existing = self.contigs.remove(&tid);
        let mut c = match existing {
            Some(c) => c,
            None => {
                self.contig_ids.push(tid);
                ContigAggregate {
                    name: pileup_stats.target_name,
                    length: pileup_stats.target_len,
                    sequence: contig,
                    coverages: zeros_u32(sample_count),
                    variances: zeros_u32(sample_count),
                    genotypes: zeros_u32(sample_count),
                    abundances: empty_slots(sample_count),
                    variant_counts: empty_slots(sample_count),
                    sums: empty_slots(sample_count),
                    snps: Vec::new(),
                    indels: Vec::new(),
                }
            },
        };
        c.coverages.set(sample_idx, pileup_stats.coverage);
        c.variances.set(sample_idx, pileup_stats.variance);
        c.genotypes.set(sample_idx, pileup_stats.mean_genotypes);
        c.sums.set(sample_idx, Some(table));
        union_support(&mut c.snps, &pileup_stats.nucfrequency);
        union_support(&mut c.indels, &pileup_stats.indels);
        c.variant_counts.set(sample_idx, Some(pileup_stats.variant_abundances.len()));
        let ghost c_before = c;
        let mut prior = match c.abundances.remove(sample_idx) {
            Some(v) => v,
            None => Vec::new(),
        };
        let mut merged = pileup_stats.variant_abundances;
        merged.append(&mut prior);
        c.abundances.insert(sample_idx, Some(merged));
        proof {
            assert(c.abundances@ =~= c_before.abundances@.update(sample_idx as int, Some(merged)));
        }
        proof {
            assert(support_set(Seq::<ReadSupport>::empty()) =~= Set::empty());
            assert(support_set(Seq::<ReadSupport>::empty()).union(support_set(stats0.nucfrequency@))
                =~= support_set(stats0.nucfrequency@));
            assert(support_set(Seq::<ReadSupport>::empty()).union(support_set(stats0.indels@))
                =~= support_set(stats0.indels@));
        }
        self.contigs.insert(tid, c);
        proof {
            assert(self.contigs@.dom() =~= old_map.dom().insert(tid));
            assert forall|t: u32| #[trigger]
                self.contigs@.contains_key(t) <==> self.contig_ids@.contains(t) by {
                if !old_map.contains_key(tid) {
                    assert(self.contig_ids@.last() == tid);
                    if old(self).contig_ids@.contains(t) {
                        let k = choose|k: int|
                            0 <= k < old(self).contig_ids@.len() && old(self).contig_ids@[k] == t;
                        assert(self.contig_ids@[k] == t);
                    }
                    if self.contig_ids@.contains(t) && t != tid {
                        let k = choose|k: int|
                            0 <= k < self.contig_ids@.len() && self.contig_ids@[k] == t;
                        assert(old(self).contig_ids@[k] == t);
                    }
                }
            }
        }
    }
}

impl PileupMatrix {
    /// Number of variant positions that the latest record of sample
    /// `sample_idx` brought for contig `tid`, if it has recorded that contig.
    pub fn variant_count(&self, tid: u32, sample_idx: usize) -> (r: Option<usize>)
        requires
            self.wf(),
        ensures
            r == (if self.contigs@.contains_key(tid) && sample_idx < self.contigs@[tid].sample_count() {
                self.contigs@[tid].variant_counts@[sample_idx as int]
            } else {
                None::<usize>
            }),
    {
        match self.contigs.get(&tid) {
            Some(c) => {
                if sample_idx < c.variant_counts.len() {
                    c.variant_counts[sample_idx]
                } else {
                    None
                }
            },
            None => None,
        }
    }
}

/// The counts of the first row of `rows` for k-mer `k`.
pub open spec fn kmer_lookup(rows: Seq<KmerRow>, k: Seq<u8>) -> Option<Seq<usize>>
    decreases rows.len(),
{
    if rows.len() == 0 {
        None
    } else if rows[0].kmer@ == k {
        Some(rows[0].counts@)
    } else {
        kmer_lookup(rows.skip(1), k)
    }
}

/// The count that the first entry for `k` in `input` gives.
pub open spec fn input_count(input: Seq<(Vec<u8>, usize)>, k: Seq<u8>) -> Option<usize>
    decreases input.len(),
{
    if input.len() == 0 {
        None
    } else if input[0].0@ == k {
        Some(input[0].1)
    } else {
        input_count(input.skip(1), k)
    }
}

/// The counts of `k` after contig `tid` recorded `c` in a table of `n` contigs.
pub open spec fn counts_with(old_counts: Option<Seq<usize>>, n: nat, tid: int, c: usize) -> Seq<
    usize,
> {
    match old_counts {
        Some(v) => v.update(tid, c),
        None => Seq::new(n, |j: int| 0usize).update(tid, c),
    }
}

/// The k-mer table after `input` was recorded for contig `tid`.
pub open spec fn kmers_after(
    rows: Seq<KmerRow>,
    input: Seq<(Vec<u8>, usize)>,
    n: nat,
    tid: int,
    k: Seq<u8>,
) -> Option<Seq<usize>> {
    match input_count(input, k) {
        Some(c) => Some(counts_with(kmer_lookup(rows, k), n, tid, c)),
        None => kmer_lookup(rows, k),
    }
}

pub open spec fn rows_sized(rows: Seq<KmerRow>, n: nat) -> bool {
    forall|j: int| 0 <= j < rows.len() ==> (#[trigger] rows[j]).counts@.len() == n
}

pub open spec fn keys_distinct(input: Seq<(Vec<u8>, usize)>) -> bool {
    forall|a: int, b: int|
        0 <= a < input.len() && 0 <= b < input.len() && a != b ==> (#[trigger] input[a]).0@
            != (#[trigger] input[b]).0@
}

proof fn lemma_lookup_first(rows: Seq<KmerRow>, k: Seq<u8>, j: int)
    requires
        0 <= j < rows.len(),
        rows[j].kmer@ == k,
        forall|m: int| 0 <= m < j ==> (#[trigger] rows[m]).kmer@ != k,
    ensures
        kmer_lookup(rows, k) == Some(rows[j].counts@),
    decreases j,
{
    if j > 0 {
        lemma_lookup_first(rows.skip(1), k, j - 1);
    }
}

proof fn lemma_lookup_none(rows: Seq<KmerRow>, k: Seq<u8>)
    requires
        forall|m: int| 0 <= m < rows.len() ==> (#[trigger] rows[m]).kmer@ != k,
    ensures
        kmer_lookup(rows, k) is None,
    decreases rows.len(),
{
    if rows.len() > 0 {
        lemma_lookup_none(rows.skip(1), k);
    }
}

proof fn lemma_input_count_none(input: Seq<(Vec<u8>, usize)>, k: Seq<u8>)
    requires
        forall|m: int| 0 <= m < input.len() ==> (#[trigger] input[m]).0@ != k,
    ensures
        input_count(input, k) is None,
    decreases input.len(),
{
    if input.len() > 0 {
        assert forall|m: int| 0 <= m < input.skip(1).len() implies (
        #[trigger] input.skip(1)[m]).0@ != k by {
            assert(input.skip(1)[m] == input[m + 1]);
        }
        lemma_input_count_none(input.skip(1), k);
    }
}

/// A change to one row that keeps its k-mer changes no other k-mer's lookup.
proof fn lemma_lookup_update(rows: Seq<KmerRow>, j: int, row: KmerRow, k: Seq<u8>)
    requires
        0 <= j < rows.len(),
        row.kmer@ == rows[j].kmer@,
        k != row.kmer@,
    ensures
        kmer_lookup(rows.update(j, row), k) == kmer_lookup(rows, k),
    decreases rows.len(),
{
    if j > 0 {
        assert(rows.update(j, row).skip(1) =~= rows.skip(1).update(j - 1, row));
        lemma_lookup_update(rows.skip(1), j - 1, row, k);
    } else {
        assert(rows.update(j, row).skip(1) =~= rows.skip(1));
    }
}

proof fn lemma_input_count_take(input: Seq<(Vec<u8>, usize)>, i: int, k: Seq<u8>)
    requires
        0 <= i < input.len(),
        keys_distinct(input),
    ensures
        input_count(input.take(i + 1), k) == (if input[i].0@ == k {
            Some(input[i].1)
        } else {
            input_count(input.take(i), k)
        }),
    decreases i,
{
    if i > 0 {
        assert(input.take(i + 1).skip(1) =~= input.skip(1).take(i));
        assert(input.take(i).skip(1) =~= input.skip(1).take(i - 1));
        assert(keys_distinct(input.skip(1))) by {
            assert forall|a: int, b: int|
                0 <= a < input.skip(1).len() && 0 <= b < input.skip(1).len() && a != b implies (
                #[trigger] input.skip(1)[a]).0@ != (#[trigger] input.skip(1)[b]).0@ by {
                assert(input.skip(1)[a] == input[a + 1]);
                assert(input.skip(1)[b] == input[b + 1]);
            }
        }
        lemma_input_count_take(input.skip(1), i - 1, k);
        assert(input.skip(1)[i - 1] == input[i]);
        if input[0].0@ == k && input[i].0@ == k {
            assert(input[0].0@ != input[i].0@);
        }
    } else {
        assert(input.take(0) =~= Seq::<(Vec<u8>, usize)>::empty());
        assert(input.take(1).skip(1) =~= Seq::<(Vec<u8>, usize)>::empty());
    }
}

/// Whether the rows are in strictly ascending order of k-mer.
pub open spec fn rows_sorted(rows: Seq<KmerRow>) -> bool {
    forall|i: int, j: int|
        0 <= i < j < rows.len() ==> bytes_lt(#[trigger] rows[i].kmer@, #[trigger] rows[j].kmer@)
}

/// Inserting a row whose k-mer no row holds changes no other k-mer's lookup
/// and makes its own k-mer find it.
proof fn lemma_lookup_insert(rows: Seq<KmerRow>, p: int, row: KmerRow, k: Seq<u8>)
    requires
        0 <= p <= rows.len(),
        forall|m: int| 0 <= m < rows.len() ==> (#[trigger] rows[m]).kmer@ != row.kmer@,
    ensures
        kmer_lookup(rows.insert(p, row), k) == (if row.kmer@ == k {
            Some(row.counts@)
        } else {
            kmer_lookup(rows, k)
        }),
    decreases p,
{
    if p == 0 {
        assert(rows.insert(p, row)[0] == row);
        assert(rows.insert(p, row).skip(1) =~= rows);
        if row.kmer@ == k {
        }
    } else {
        assert(rows.insert(p, row)[0] == rows[0]);
        assert(rows.insert(p, row).skip(1) =~= rows.skip(1).insert(p - 1, row));
        assert forall|m: int| 0 <= m < rows.skip(1).len() implies (
        #[trigger] rows.skip(1)[m]).kmer@ != row.kmer@ by {
            assert(rows.skip(1)[m] == rows[m + 1]);
        }
        lemma_lookup_insert(rows.skip(1), p - 1, row, k);
    }
}

/// Where k-mer `k` stands or belongs among sorted rows, and whether a row
/// holds it.
fn kmer_slot(rows: &Vec<KmerRow>, k: &Vec<u8>) -> (r: (usize, bool))
    requires
        rows_sorted(rows@),
    ensures
        r.0 <= rows@.len(),
        forall|m: int| 0 <= m < r.0 ==> bytes_lt((#[trigger] rows@[m]).kmer@, k@),
        r.1 ==> r.0 < rows@.len() && rows@[r.0 as int].kmer@ == k@ && kmer_lookup(rows@, k@)
            == Some(rows@[r.0 as int].counts@),
        !r.1 ==> kmer_lookup(rows@, k@) is None && forall|m: int|
            r.0 <= m < rows@.len() ==> bytes_lt(k@, (#[trigger] rows@[m]).kmer@),
{
    let mut j: usize = 0;
    while j < rows.len() && bytes_less(&rows[j].kmer, k)
        invariant
            j <= rows@.len(),
            forall|m: int| 0 <= m < j ==> bytes_lt((#[trigger] rows@[m]).kmer@, k@),
        decreases rows@.len() - j,
    {
        j = j + 1;
    }
    proof {
        lemma_bytes_lt_total(k@, k@);
        assert forall|m: int| 0 <= m < j implies (#[trigger] rows@[m]).kmer@ != k@ by {
            if rows@[m].kmer@ == k@ {
                assert(bytes_lt(k@, k@));
            }
        }
    }
    if j < rows.len() && bytes_equal(&rows[j].kmer, k) {
        proof {
            lemma_lookup_first(rows@, k@, j as int);
        }
        return (j, true);
    }
    proof {
        if j < rows@.len() {
            lemma_bytes_lt_total(rows@[j as int].kmer@, k@);
            assert forall|m: int| j <= m < rows@.len() implies bytes_lt(
                k@,
                (#[trigger] rows@[m]).kmer@,
            ) by {
                if m > j {
                    assert(bytes_lt(rows@[j as int].kmer@, rows@[m].kmer@));
                    lemma_bytes_lt_trans(k@, rows@[j as int].kmer@, rows@[m].kmer@);
                }
            }
        }
        assert forall|m: int| 0 <= m < rows@.len() implies (#[trigger] rows@[m]).kmer@ != k@ by {
            if m >= j {
                assert(bytes_lt(k@, rows@[m].kmer@));
                lemma_bytes_lt_total(k@, k@);
            }
        }
        lemma_lookup_none(rows@, k@);
    }
    (j, false)
}

fn holds_id(v: &Vec<u32>, x: u32) -> (b: bool)
    ensures
        b == v@.contains(x),
{
    let mut i: usize = 0;
    while i < v.len()
        invariant
            i <= v@.len(),
            forall|j: int| 0 <= j < i ==> v@[j] != x,
        decreases v@.len() - i,
    {
        if v[i] == x {
            assert(v@[i as int] == x);
            return true;
        }
        i = i + 1;
    }
    false
}

fn zeros_usize(n: usize) -> (r: Vec<usize>)
    ensures
        r@ == Seq::new(n as nat, |i: int| 0usize),
{
    let mut r: Vec<usize> = Vec::new();
    while r.len() < n
        invariant
            r@.len() <= n,
            forall|i: int| 0 <= i < r@.len() ==> r@[i] == 0usize,
        decreases n - r@.len(),
    {
        r.push(0);
    }
    assert(r@ =~= Seq::new(n as nat, |i: int| 0usize));
    r
}

impl PileupMatrix {
    /// Whether contig `tid` has already been seen for k-mer purposes: its
    /// k-mers were stored, or `add_contig` has recorded it.
    pub open spec fn kmers_seen(&self, tid: u32) -> bool {
        self.kmer_contigs@.contains(tid) || self.contigs@.contains_key(tid)
    }

    /// Records the k-mer counts of contig `tid` in the shared table the first
    /// time the contig is seen; every later call for it changes nothing.
    pub fn add_kmers(&mut self, tid: u32, number_of_contigs: usize, k_freq: Vec<(Vec<u8>, usize)>)
        requires
            (tid as int) < number_of_contigs,
            rows_sized(old(self).kfrequencies@, number_of_contigs as nat),
            rows_sorted(old(self).kfrequencies@),
            keys_distinct(k_freq@),
        ensures
            rows_sorted(final(self).kfrequencies@),
            final(self).sample_names@ == old(self).sample_names@,
            final(self).contig_ids@ == old(self).contig_ids@,
            final(self).contigs@ == old(self).contigs@,
            rows_sized(final(self).kfrequencies@, number_of_contigs as nat),
            old(self).kmers_seen(tid) ==> final(self).kfrequencies@ == old(self).kfrequencies@
                && final(self).kmer_contigs@ == old(self).kmer_contigs@,
            !old(self).kmers_seen(tid) ==> final(self).kmer_contigs@ == old(
                self,
            ).kmer_contigs@.push(tid),
            forall|k: Seq<u8>| #[trigger]
                kmer_lookup(final(self).kfrequencies@, k) == if old(self).kmers_seen(tid) {
                    kmer_lookup(old(self).kfrequencies@, k)
                } else {
                    kmers_after(
                        old(self).kfrequencies@,
                        k_freq@,
                        number_of_contigs as nat,
                        tid as int,
                        k,
                    )
                },
    {
        if self.contigs.contains_key(&tid) || holds_id(&self.kmer_contigs, tid) {
            return;
        }
        self.kmer_contigs.push(tid);
        let ghost rows0 = self.kfrequencies@;
        let mut i: usize = 0;
        while i < k_freq.len()
            invariant
                (tid as int) < number_of_contigs,
                keys_distinct(k_freq@),
                i <= k_freq@.len(),
                rows_sized(self.kfrequencies@, number_of_contigs as nat),
                rows_sorted(self.kfrequencies@),
                self.sample_names@ == old(self).sample_names@,
                self.contig_ids@ == old(self).contig_ids@,
                self.contigs@ == old(self).contigs@,
                self.kmer_contigs@ == old(self).kmer_contigs@.push(tid),
                forall|k: Seq<u8>| #[trigger]
                    kmer_lookup(self.kfrequencies@, k) == kmers_after(
                        rows0,
                        k_freq@.take(i as int),
                        number_of_contigs as nat,
                        tid as int,
                        k,
                    ),
            decreases k_freq@.len() - i,
        {
            let key = &k_freq[i].0;
            let count = k_freq[i].1;
            let ghost before = self.kfrequencies@;
            proof {
                assert forall|m: int| 0 <= m < k_freq@.take(i as int).len() implies (
                #[trigger] k_freq@.take(i as int)[m]).0@ != key@ by {
                    assert(k_freq@.take(i as int)[m] == k_freq@[m]);
                }
                lemma_input_count_none(k_freq@.take(i as int), key@);
                assert(kmer_lookup(before, key@) == kmer_lookup(rows0, key@));
            }
            let (j, found) = kmer_slot(&self.kfrequencies, key);
            match found {
                true => {
                    let mut row = self.kfrequencies.remove(j);
                    row.counts.set(tid as usize, count);
                    self.kfrequencies.insert(j, row);
                    proof {
                        assert(self.kfrequencies@ =~= before.update(j as int, row));
                        assert forall|k: Seq<u8>| k != key@ implies #[trigger] kmer_lookup(
                            self.kfrequencies@,
                            k,
                        ) == kmer_lookup(before, k) by {
                            lemma_lookup_update(before, j as int, row, k);
                        }
                        assert forall|m: int| 0 <= m < j implies (
                        #[trigger] self.kfrequencies@[m]).kmer@ != key@ by {
                            assert(self.kfrequencies@[m] == before[m]);
                            lemma_bytes_lt_total(key@, key@);
                        }
                        assert forall|a: int, b: int|
                            0 <= a < b < self.kfrequencies@.len() implies bytes_lt(
                            #[trigger] self.kfrequencies@[a].kmer@,
                            #[trigger] self.kfrequencies@[b].kmer@,
                        ) by {
                            assert(bytes_lt(before[a].kmer@, before[b].kmer@));
                        }
                        lemma_lookup_first(self.kfrequencies@, key@, j as int);
                        assert forall|m: int| 0 <= m < self.kfrequencies@.len() implies (
                        #[trigger] self.kfrequencies@[m]).counts@.len() == number_of_contigs by {
                            if m != j {
                                assert(self.kfrequencies@[m] == before[m]);
                            } else {
                                assert(before[m].counts@.len() == number_of_contigs);
                            }
                        }
                    }
                },
                false => {
                    let mut counts = zeros_usize(number_of_contigs);
                    counts.set(tid as usize, count);
                    let row = KmerRow { kmer: copy_bytes(key), counts };
                    self.kfrequencies.insert(j, row);
                    proof {
                        assert(self.kfrequencies@ =~= before.insert(j as int, row));
                        assert forall|m: int| 0 <= m < before.len() implies (
                        #[trigger] before[m]).kmer@ != row.kmer@ by {
                            lemma_bytes_lt_total(key@, key@);
                            if m >= j {
                                assert(bytes_lt(key@, before[m].kmer@));
                            } else {
                                assert(bytes_lt(before[m].kmer@, key@));
                            }
                        }
                        assert forall|k: Seq<u8>| #[trigger]
                            kmer_lookup(self.kfrequencies@, k) == (match kmer_lookup(before, k) {
                                Some(v) => Some(v),
                                None => if row.kmer@ == k {
                                    Some(row.counts@)
                                } else {
                                    None
                                },
                            }) by {
                            lemma_lookup_insert(before, j as int, row, k);
                        }
                        assert forall|m: int| 0 <= m < self.kfrequencies@.len() implies (
                        #[trigger] self.kfrequencies@[m]).counts@.len() == number_of_contigs by {
                            if m < j {
                                assert(self.kfrequencies@[m] == before[m]);
                            } else if m > j {
                                assert(self.kfrequencies@[m] == before[m - 1]);
                            }
                        }
                        assert forall|a: int, b: int|
                            0 <= a < b < self.kfrequencies@.len() implies bytes_lt(
                            #[trigger] self.kfrequencies@[a].kmer@,
                            #[trigger] self.kfrequencies@[b].kmer@,
                        ) by {
                            if b < j {
                                assert(bytes_lt(before[a].kmer@, before[b].kmer@));
                            } else if a > j {
                                assert(bytes_lt(before[a - 1].kmer@, before[b - 1].kmer@));
                            } else if a == j {
                                assert(bytes_lt(key@, before[b - 1].kmer@));
                            } else if b == j {
                                assert(bytes_lt(before[a].kmer@, key@));
                            } else {
                                assert(bytes_lt(before[a].kmer@, key@));
                                assert(bytes_lt(key@, before[b - 1].kmer@));
                                lemma_bytes_lt_trans(before[a].kmer@, key@, before[b - 1].kmer@);
                            }
                        }
                    }
                },
            }
            proof {
                assert forall|k: Seq<u8>| #[trigger]
                    kmer_lookup(self.kfrequencies@, k) == kmers_after(
                        rows0,
                        k_freq@.take(i + 1),
                        number_of_contigs as nat,
                        tid as int,
                        k,
                    ) by {
                    lemma_input_count_take(k_freq@, i as int, k);
                    assert(kmer_lookup(before, k) == kmers_after(
                        rows0,
                        k_freq@.take(i as int),
                        number_of_contigs as nat,
                        tid as int,
                        k,
                    ));
                }
            }
            i = i + 1;
        }
        assert(k_freq@.take(i as int) =~= k_freq@);
    }
}

/// Recording statistics a second time for the same contig and sample leaves
/// the read-support sets as the first record made them, where the second
/// brings the same sets, while the scalar slots and the sample's variant
/// count take the second record's values.
pub proof fn lemma_record_twice(
    e0: Option<ContigAggregate>,
    s1: PileupStats,
    s2: PileupStats,
    contig: Seq<u8>,
    n: nat,
    idx: int,
    c1: ContigAggregate,
    c2: ContigAggregate,
)
    requires
        0 <= idx < n,
        recorded(e0, s1, contig, n, idx, c1),
        recorded(Some(c1), s2, contig, n, idx, c2),
        support_set(s2.nucfrequency@) == support_set(s1.nucfrequency@),
        support_set(s2.indels@) == support_set(s1.indels@),
    ensures
        support_set(c2.snps@) == support_set(c1.snps@),
        support_set(c2.indels@) == support_set(c1.indels@),
        c2.coverages@[idx] == s2.coverage,
        c2.variances@[idx] == s2.variance,
        c2.genotypes@[idx] == s2.mean_genotypes,
        c2.variant_counts@[idx] == Some(s2.variant_abundances@.len() as usize),
        c2.name@ == c1.name@,
        c2.length == c1.length,
{
    assert(support_set(c1.snps@).union(support_set(s1.nucfrequency@)) =~= support_set(c1.snps@));
    assert(support_set(c1.indels@).union(support_set(s1.indels@)) =~= support_set(c1.indels@));
}

} // verus!

use lorikeet::features::{contig_features, has_heterogeneity, variant_features};
use lorikeet::matrix::{
    Fraction, PileupMatrix, PileupStats, PositionVariants, ReadSupport, VariantObservation,
};

fn obs(key: &str, count: u32, depth: u32) -> VariantObservation {
    VariantObservation { key: key.as_bytes().to_vec(), count, depth }
}

fn support(position: i64, allele: &str, read: i64) -> ReadSupport {
    ReadSupport { position, allele: allele.as_bytes().to_vec(), read }
}

fn stats(tid: u32, coverage: f32, positions: Vec<PositionVariants>, snps: Vec<ReadSupport>) -> PileupStats {
    PileupStats {
        tid,
        target_name: "contig_1".to_string(),
        target_len: 20,
        coverage: coverage.to_bits(),
        variance: (coverage / 2.0).to_bits(),
        mean_genotypes: 1.0f32.to_bits(),
        variant_abundances: positions,
        indels: Vec::new(),
        nucfrequency: snps,
    }
}

fn one_variant(count: u32, depth: u32) -> Vec<PositionVariants> {
    vec![PositionVariants { position: 10, variants: vec![obs("A", count, depth)] }]
}

fn three_sample_matrix() -> PileupMatrix {
    let mut m = PileupMatrix::new_matrix();
    for name in ["s1", "s2", "s3"] {
        m.add_sample(name.to_string());
    }
    let data = [(5u32, 10u32), (0, 8), (9, 9)];
    for (idx, (c, d)) in data.iter().enumerate() {
        m.add_contig(stats(0, 3.0, one_variant(*c, *d), Vec::new()), 3, idx, b"ACGTACGTACGTACGTACGT".to_vec());
    }
    m
}

#[test]
fn three_samples_one_variant_sum_rows() {
    let m = three_sample_matrix();
    let c = &m.contigs[&0];
    let expected_var = [(6, 11), (1, 9), (10, 10)];
    let expected_ref = [(5, 11), (8, 9), (0, 10)];
    for s in 0..3 {
        let t = c.sums[s].as_ref().unwrap();
        assert_eq!(t.var_freq, vec![Fraction { num: expected_var[s].0, den: expected_var[s].1 }]);
        assert_eq!(t.ref_freq, vec![Fraction { num: expected_ref[s].0, den: expected_ref[s].1 }]);
        assert_eq!(t.depth, vec![expected_var[s].1 as u64]);
        assert_eq!(m.variant_count(0, s), Some(1));
    }
    assert_eq!(m.variant_count(0, 3), None);
    assert_eq!(m.variant_count(5, 0), None);
    assert_eq!(c.name, "contig_1");
    assert_eq!(c.length, 20);
    assert_eq!(m.contig_ids, vec![0]);
}

#[test]
fn contig_without_variants_records_zero_row() {
    let mut m = PileupMatrix::new_matrix();
    m.add_sample("s1".to_string());
    m.add_contig(stats(4, 1.0, Vec::new(), Vec::new()), 1, 0, b"ACGT".to_vec());
    let t = m.contigs[&4].sums[0].as_ref().unwrap();
    assert_eq!(t.var_freq, vec![Fraction { num: 0, den: 1 }]);
    assert_eq!(t.depth, vec![0]);
    assert_eq!(t.ref_freq, vec![Fraction { num: 0, den: 1 }]);
    assert_eq!(m.variant_count(4, 0), Some(0));
}

#[test]
fn repeated_record_keeps_sets_and_overwrites_scalars() {
    let mut m = PileupMatrix::new_matrix();
    m.add_sample("s1".to_string());
    let snps = || vec![support(3, "A", 7), support(3, "A", 8), support(5, "C", 7)];
    m.add_contig(stats(1, 2.0, one_variant(4, 10), snps()), 1, 0, b"ACGT".to_vec());
    let first = m.contigs[&1].snps.len();
    m.add_contig(stats(1, 9.5, one_variant(4, 10), snps()), 1, 0, b"TTTT".to_vec());
    let c = &m.contigs[&1];
    assert_eq!(first, 3);
    assert_eq!(c.snps.len(), 3);
    assert_eq!(f32::from_bits(c.coverages[0]), 9.5);
    assert_eq!(f32::from_bits(c.variances[0]), 4.75);
    assert_eq!(c.sequence, b"ACGT".to_vec());
    m.add_contig(stats(1, 1.0, one_variant(4, 10), vec![support(9, "G", 1)]), 1, 0, b"ACGT".to_vec());
    assert_eq!(m.contigs[&1].snps.len(), 4);
}

#[test]
fn duplicate_read_support_in_one_call_is_kept_once() {
    let mut m = PileupMatrix::new_matrix();
    m.add_contig(stats(2, 1.0, Vec::new(), vec![support(1, "T", 5), support(1, "T", 5)]), 2, 1, b"A".to_vec());
    assert_eq!(m.contigs[&2].snps.len(), 1);
    assert_eq!(m.contigs[&2].coverages, vec![0, 1.0f32.to_bits()]);
}

#[test]
fn kmers_recorded_only_before_the_contig() {
    let mut m = PileupMatrix::new_matrix();
    m.add_kmers(1, 3, vec![(b"AC".to_vec(), 4), (b"GT".to_vec(), 2)]);
    assert_eq!(m.kfrequencies.len(), 2);
    assert_eq!(m.kfrequencies[0].counts, vec![0, 4, 0]);
    m.add_kmers(2, 3, vec![(b"AC".to_vec(), 7)]);
    assert_eq!(m.kfrequencies[0].counts, vec![0, 4, 7]);
    m.add_kmers(1, 3, vec![(b"AC".to_vec(), 8)]);
    assert_eq!(m.kfrequencies[0].counts, vec![0, 4, 7]);
    m.add_contig(stats(0, 1.0, Vec::new(), Vec::new()), 1, 0, b"A".to_vec());
    m.add_kmers(0, 3, vec![(b"AC".to_vec(), 9)]);
    assert_eq!(m.kfrequencies[0].counts, vec![0, 4, 7]);
}

#[test]
fn setup_clears_everything() {
    let mut m = three_sample_matrix();
    m.setup();
    assert!(m.sample_names.is_empty());
    assert!(m.contigs.is_empty());
    assert!(m.contig_ids.is_empty());
}

#[test]
fn features_are_pseudo_counted_for_every_sample() {
    let m = three_sample_matrix();
    let f = variant_features(&m);
    assert_eq!(f.len(), 1);
    assert_eq!(f[0].len(), 1);
    assert_eq!(f[0][0].position, 10);
    assert_eq!(f[0][0].freqs, vec![6, 1, 10]);
    assert_eq!(f[0][0].depths, vec![11, 9, 10]);
    assert!(!has_heterogeneity(&f));
}

#[test]
fn features_skip_reference_and_fill_missing_samples() {
    let mut m = PileupMatrix::new_matrix();
    let p0 = vec![PositionVariants { position: 2, variants: vec![obs("R", 3, 6), obs("G", 2, 6)] }];
    let p1 = vec![PositionVariants { position: 4, variants: vec![obs("T", 1, 3)] }];
    m.add_contig(stats(0, 1.0, p0, Vec::new()), 2, 0, b"ACGTA".to_vec());
    m.add_contig(stats(0, 1.0, p1, Vec::new()), 2, 1, b"ACGTA".to_vec());
    let f = variant_features(&m);
    assert_eq!(f[0].len(), 2);
    assert_eq!(f[0][0].key, b"G".to_vec());
    assert_eq!(f[0][0].freqs, vec![3, 1]);
    assert_eq!(f[0][0].depths, vec![7, 1]);
    assert_eq!(f[0][1].key, b"T".to_vec());
    assert_eq!(f[0][1].freqs, vec![1, 2]);
    assert_eq!(f[0][1].depths, vec![1, 4]);
    assert!(has_heterogeneity(&f));
}

#[test]
fn all_zero_counts_give_unit_frequencies() {
    let mut m = PileupMatrix::new_matrix();
    let p = vec![PositionVariants { position: 1, variants: vec![obs("C", 0, 0)] }];
    m.add_contig(stats(0, 1.0, p, Vec::new()), 2, 0, b"AC".to_vec());
    let f = variant_features(&m);
    assert_eq!(f[0][0].freqs, vec![1, 1]);
    assert_eq!(f[0][0].depths, vec![1, 1]);
    let log_sum: f64 = f[0][0].freqs.iter().map(|v| (*v as f64).ln()).sum();
    assert_eq!((log_sum / 2.0).exp(), 1.0);
}

#[test]
fn repeated_kmer_record_changes_nothing() {
    let mut m = PileupMatrix::new_matrix();
    m.add_kmers(1, 3, vec![(b"GT".to_vec(), 4), (b"AC".to_vec(), 2)]);
    m.add_kmers(1, 3, vec![(b"GT".to_vec(), 9), (b"TT".to_vec(), 5)]);
    assert_eq!(m.kfrequencies.len(), 2);
    assert_eq!(m.kfrequencies[1].counts, vec![0, 4, 0]);
    assert_eq!(m.kmer_contigs, vec![1]);
}

#[test]
fn kmer_rows_stay_in_ascending_order() {
    let mut m = PileupMatrix::new_matrix();
    m.add_kmers(0, 2, vec![(b"TT".to_vec(), 1), (b"AC".to_vec(), 2)]);
    m.add_kmers(1, 2, vec![(b"GA".to_vec(), 3), (b"A".to_vec(), 4), (b"TT".to_vec(), 6)]);
    let kmers: Vec<Vec<u8>> = m.kfrequencies.iter().map(|r| r.kmer.clone()).collect();
    assert_eq!(kmers, vec![b"A".to_vec(), b"AC".to_vec(), b"GA".to_vec(), b"TT".to_vec()]);
    assert_eq!(m.kfrequencies[3].counts, vec![1, 6]);
    assert_eq!(m.kfrequencies[0].counts, vec![0, 4]);
}

#[test]
fn repeated_record_keeps_pairs_the_new_call_lacks() {
    let mut m = PileupMatrix::new_matrix();
    let first = vec![
        PositionVariants { position: 3, variants: vec![obs("A", 2, 5)] },
        PositionVariants { position: 7, variants: vec![obs("C", 1, 4)] },
    ];
    m.add_contig(stats(0, 1.0, first, Vec::new()), 1, 0, b"ACGTACGT".to_vec());
    let second = vec![PositionVariants { position: 3, variants: vec![obs("A", 6, 9)] }];
    m.add_contig(stats(0, 1.0, second, Vec::new()), 1, 0, b"ACGTACGT".to_vec());
    assert_eq!(m.variant_count(0, 0), Some(1));
    let rows = contig_features(&m.contigs[&0]);
    assert_eq!(rows.len(), 2);
    let at = |p: i64| rows.iter().find(|r| r.position == p).unwrap();
    assert_eq!(at(3).freqs, vec![7]);
    assert_eq!(at(3).depths, vec![10]);
    assert_eq!(at(7).freqs, vec![2]);
    assert_eq!(at(7).depths, vec![5]);
    m.add_contig(stats(0, 1.0, Vec::new(), Vec::new()), 1, 0, b"ACGTACGT".to_vec());
    assert_eq!(m.variant_count(0, 0), Some(0));
    assert_eq!(contig_features(&m.contigs[&0]).len(), 2);
}

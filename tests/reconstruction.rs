use lorikeet::codon::{get_codons, CodonTable, NCBITable, Strand};
use lorikeet::emission::{emit_strain_sequence, strain_calls, wrap_lines, SiteRef, VariantCall};
use lorikeet::haplotype::{
    distinct_clusters, find_cluster_roots, reconstruct_haplotypes, route_predictions, route_variant,
    Dendrogram, HaplotypeError, Posterior, Prediction, Step,
};
use lorikeet::rank::{rank_bounds, scan_continues, select_rank};

fn step(a: usize, b: usize, size: usize) -> Step {
    Step { cluster1: a, cluster2: b, size }
}

fn four_leaf_tree() -> Dendrogram {
    Dendrogram { steps: vec![step(0, 1, 2), step(2, 3, 2), step(4, 5, 4)] }
}

#[test]
fn posterior_below_share_goes_to_shared_bucket() {
    assert_eq!(route_variant(2, Posterior { num: 1, den: 5 }, 3), None);
    assert_eq!(route_variant(2, Posterior { num: 2, den: 5 }, 3), Some(2));
    assert_eq!(route_variant(1, Posterior { num: 1, den: 3 }, 3), Some(1));
}

#[test]
fn predictions_routed_by_number_of_clusters() {
    let p = |cluster, num, den| Prediction { cluster, posterior: Posterior { num, den } };
    let preds = vec![p(0, 1, 5), p(1, 2, 5), p(2, 9, 10), p(1, 1, 3)];
    assert_eq!(distinct_clusters(&vec![0, 1, 2, 1]), vec![0, 1, 2]);
    assert_eq!(route_predictions(&preds), vec![None, Some(1), Some(2), Some(1)]);
}

#[test]
fn rank_scan_stops_at_first_local_minimum() {
    assert_eq!(select_rank(&vec![10, 8, 9, 1], 4), 5);
    assert_eq!(select_rank(&vec![10, 8, 8, 3], 4), 7);
    assert_eq!(select_rank(&vec![5], 4), 4);
    assert_eq!(select_rank(&vec![0, 7, 0], 2), 2);
}

#[test]
fn rank_bounds_clamp_to_variant_count() {
    assert_eq!(rank_bounds(3), (3, 3));
    assert_eq!(rank_bounds(10), (4, 10));
    assert_eq!(rank_bounds(100), (4, 25));
}

#[test]
fn roots_expand_largest_label_first() {
    let d = four_leaf_tree();
    assert_eq!(find_cluster_roots(&d, 1), Some(vec![6]));
    assert_eq!(find_cluster_roots(&d, 2), Some(vec![4, 5]));
    assert_eq!(find_cluster_roots(&d, 3), Some(vec![4, 2, 3]));
    assert_eq!(find_cluster_roots(&d, 4), Some(vec![2, 3, 0, 1]));
    assert_eq!(find_cluster_roots(&d, 5), None);
}

#[test]
fn haplotypes_partition_the_leaves() {
    let d = four_leaf_tree();
    let hs = reconstruct_haplotypes(&d, 2).unwrap();
    assert_eq!(hs.len(), 2);
    assert_eq!(hs[0].variant_indices, vec![0, 1]);
    assert_eq!(hs[1].variant_indices, vec![2, 3]);
    assert_eq!(hs[1].haplotype_index, 1);
    let all = reconstruct_haplotypes(&d, 1).unwrap();
    assert_eq!(all[0].variant_indices, vec![0, 1, 2, 3]);
    let three = reconstruct_haplotypes(&d, 3).unwrap();
    assert_eq!(three[1].root_cluster_id, 2);
    assert_eq!(three[1].variant_indices, vec![2]);
}

#[test]
fn inconsistent_tree_is_reported() {
    let d = Dendrogram { steps: vec![step(0, 1, 2), step(0, 1, 2), step(4, 5, 4)] };
    assert!(matches!(reconstruct_haplotypes(&d, 2), Err(HaplotypeError::NotAPartition)));
    assert!(matches!(reconstruct_haplotypes(&four_leaf_tree(), 6), Err(HaplotypeError::TooFewMerges)));
    let late = Dendrogram { steps: vec![step(0, 5, 2), step(2, 3, 2), step(4, 1, 4)] };
    assert!(matches!(reconstruct_haplotypes(&late, 2), Err(HaplotypeError::MergeOrder)));
}

fn call(position: i64, key: &str) -> VariantCall {
    VariantCall { position, key: key.as_bytes().to_vec() }
}

#[test]
fn strain_sequence_applies_each_kind_of_call() {
    let reference = b"ACGTACGTAC".to_vec();
    let calls = vec![call(1, "T"), call(3, "TGG"), call(5, "NNN"), call(6, "A"), call(9, "")];
    let (seq, applied) = emit_strain_sequence(&reference, &calls);
    assert_eq!(String::from_utf8(seq).unwrap(), "ATGGGANA");
    assert_eq!(applied, 4);
    let (same, none) = emit_strain_sequence(&reference, &Vec::new());
    assert_eq!(same, reference);
    assert_eq!(none, 0);
}

#[test]
fn first_call_at_a_position_wins() {
    let (seq, applied) = emit_strain_sequence(&b"AAA".to_vec(), &vec![call(1, "C"), call(1, "G")]);
    assert_eq!(seq, b"ACA".to_vec());
    assert_eq!(applied, 1);
}

#[test]
fn strain_calls_put_shared_bucket_first() {
    let site = |tid, position, key: &str| SiteRef { tid, position, key: key.as_bytes().to_vec() };
    let sites = vec![site(0, 1, "A"), site(0, 2, "C"), site(1, 2, "G"), site(0, 3, "T")];
    let routes = vec![Some(1), None, None, Some(2)];
    let calls = strain_calls(&sites, &routes, 1, 0);
    let got: Vec<(i64, Vec<u8>)> = calls.into_iter().map(|c| (c.position, c.key)).collect();
    assert_eq!(got, vec![(2, b"C".to_vec()), (1, b"A".to_vec())]);
}

#[test]
fn lines_wrap_at_sixty() {
    let seq = vec![b'A'; 130];
    let lines = wrap_lines(&seq);
    assert_eq!(lines.iter().map(|l| l.len()).collect::<Vec<_>>(), vec![60, 60, 10]);
    assert!(wrap_lines(&Vec::new()).is_empty());
}

#[test]
fn codons_forward_and_reverse() {
    let fwd = get_codons(b"ATGCCGTA".to_vec(), 1, Strand::Forward);
    assert_eq!(fwd, vec![b"TGC".to_vec(), b"CGT".to_vec(), b"A".to_vec()]);
    let rev = get_codons(b"ACGTT".to_vec(), 0, Strand::Reverse);
    assert_eq!(rev, vec![b"AAC".to_vec(), b"GT".to_vec()]);
    assert!(get_codons(b"ACG".to_vec(), 3, Strand::Unknown).is_empty());
}

#[test]
fn translation_tables() {
    let t1 = NCBITable::get_translation_table(1);
    let t11 = NCBITable::get_translation_table(11);
    assert_eq!(t1.aas, t11.aas);
    assert_eq!(&t11.starts[32..36], "MMMM");
    assert_eq!(&t1.starts[32..36], "---M");
    assert_eq!(t1.aas.len(), 64);
    let c = CodonTable::setup();
    assert!(c.aminos.is_empty() && c.starts.is_empty());
}

#[test]
fn codon_table_groups_codons_by_symbol() {
    let mut t = CodonTable::setup();
    t.get_codon_table(11);
    assert_eq!(t.aminos.len(), 21);
    let stops = t.aminos.iter().find(|g| g.symbol == '*').unwrap();
    assert_eq!(stops.codons, vec![('T', 'A', 'A'), ('T', 'A', 'G'), ('T', 'G', 'A')]);
    let met = t.aminos.iter().find(|g| g.symbol == 'M').unwrap();
    assert_eq!(met.codons, vec![('A', 'T', 'G')]);
    let starts = t.starts.iter().find(|g| g.symbol == 'M').unwrap();
    assert_eq!(starts.codons.len(), 7);
    assert!(starts.codons.contains(&('G', 'T', 'G')));
    let total: usize = t.aminos.iter().map(|g| g.codons.len()).sum();
    assert_eq!(total, 64);
    let mut standard = CodonTable::setup();
    standard.get_codon_table(1);
    assert_eq!(standard.starts.iter().find(|g| g.symbol == 'M').unwrap().codons.len(), 3);
}

#[test]
fn scan_stops_at_first_rise() {
    assert!(scan_continues(&vec![], 7));
    assert!(scan_continues(&vec![9, 5], 5));
    assert!(!scan_continues(&vec![9, 5], 6));
}

#[test]
fn reverse_strand_uses_iupac_complement() {
    let rev = get_codons(b"acgRN".to_vec(), 0, Strand::Reverse);
    assert_eq!(rev, vec![b"NYc".to_vec(), b"gt".to_vec()]);
}

use wml_comparer::comparer::atoms::{
    ComparisonUnit, ComparisonUnitAtom, ComparisonUnitGroup, ComparisonUnitWord, CorrelatedSequence,
};
use wml_comparer::comparer::lcs::{
    correlated_hash_run, correlated_hash_run_indexed, correlated_hash_run_scan,
    process_correlated_hashes, process_correlated_hashes_owned, CorrelatedHashRun,
};
use wml_comparer::comparer::{ComparisonUnitGroupType, CorrelationStatus};
use wml_comparer::xml::NodeId;

fn word(atoms: Vec<ComparisonUnitAtom>) -> ComparisonUnit {
    let hash: String = atoms.iter().map(|a| a.sha1_hash.clone()).collect::<Vec<_>>().join("|");
    ComparisonUnit::Word(ComparisonUnitWord {
        correlation_status: CorrelationStatus::Nil,
        contents: atoms,
        sha1_hash: hash,
    })
}

fn group(hash: &str, correlated: &str) -> ComparisonUnit {
    let atom = ComparisonUnitAtom::new(NodeId(0), Vec::<NodeId>::new(), format!("atom-{hash}"));
    ComparisonUnit::Group(ComparisonUnitGroup {
        correlation_status: CorrelationStatus::Nil,
        group_type: ComparisonUnitGroupType::Paragraph,
        contents: vec![word(vec![atom])],
        level: 0,
        sha1_hash: hash.to_string(),
        correlated_sha1_hash: Some(correlated.to_string()),
        structure_sha1_hash: None,
    })
}

fn correlated_unknown() -> CorrelatedSequence {
    let left = vec![
        group("left-prefix", "left-only"),
        group("left-0", "match-0"),
        group("left-1", "match-1"),
        group("left-2", "match-2"),
        group("left-3", "match-3"),
        group("left-suffix", "left-tail"),
    ];
    let right = vec![
        group("right-prefix", "right-only"),
        group("right-0", "match-0"),
        group("right-1", "match-1"),
        group("right-2", "match-2"),
        group("right-3", "match-3"),
        group("right-suffix", "right-tail"),
    ];
    CorrelatedSequence::paired(CorrelationStatus::Unknown, left, right)
}

fn signature(sequences: &[CorrelatedSequence]) -> Vec<(CorrelationStatus, Vec<String>, Vec<String>)> {
    sequences
        .iter()
        .map(|sequence| {
            let left = sequence
                .com_units_1
                .as_deref()
                .unwrap_or_default()
                .iter()
                .map(|unit| unit.sha1().to_string())
                .collect();
            let right = sequence
                .com_units_2
                .as_deref()
                .unwrap_or_default()
                .iter()
                .map(|unit| unit.sha1().to_string())
                .collect();
            (sequence.correlation_status, left, right)
        })
        .collect()
}

fn unit_string_buffers(sequences: &[CorrelatedSequence]) -> Vec<usize> {
    let mut pointers: Vec<usize> = sequences
        .iter()
        .flat_map(|sequence| {
            sequence
                .com_units_1
                .iter()
                .chain(sequence.com_units_2.iter())
                .flat_map(|units| units.iter())
        })
        .map(|unit| unit.sha1().as_ptr() as usize)
        .collect();
    pointers.sort_unstable();
    pointers
}

#[test]
fn owned_correlated_hash_resolution_matches_reference_output() {
    let unknown = correlated_unknown();
    let expected = process_correlated_hashes(&unknown).expect("reference resolves");

    let actual = process_correlated_hashes_owned(unknown).expect("owned path resolves");

    assert_eq!(signature(&actual), signature(&expected));
}

#[test]
fn owned_correlated_hash_resolution_moves_unit_buffers() {
    let unknown = correlated_unknown();
    let original_buffers = unit_string_buffers(std::slice::from_ref(&unknown));

    let actual = process_correlated_hashes_owned(unknown).expect("owned path resolves");

    assert_eq!(unit_string_buffers(&actual), original_buffers);
}

fn group_atoms(
    hash: &str,
    correlated: Option<&str>,
    group_type: ComparisonUnitGroupType,
    atom_count: usize,
) -> ComparisonUnit {
    let atoms: Vec<ComparisonUnitAtom> = (0..atom_count.max(1))
        .map(|i| ComparisonUnitAtom::new(NodeId(i), Vec::<NodeId>::new(), format!("atom-{hash}-{i}")))
        .collect();
    ComparisonUnit::Group(ComparisonUnitGroup {
        correlation_status: CorrelationStatus::Nil,
        group_type,
        contents: vec![word(atoms)],
        level: 0,
        sha1_hash: hash.to_string(),
        correlated_sha1_hash: correlated.map(|s| s.to_string()),
        structure_sha1_hash: None,
    })
}

fn run_eq(a: Option<CorrelatedHashRun>, b: Option<CorrelatedHashRun>) {
    assert_eq!(
        a.map(|r| (r.left_start, r.right_start, r.len)),
        b.map(|r| (r.left_start, r.right_start, r.len)),
    );
}

#[test]
fn indexed_matches_scan_on_owned_fixture() {
    let left = vec![
        group_atoms("lp", Some("lo"), ComparisonUnitGroupType::Paragraph, 1),
        group_atoms("l0", Some("m0"), ComparisonUnitGroupType::Paragraph, 1),
        group_atoms("l1", Some("m1"), ComparisonUnitGroupType::Paragraph, 1),
        group_atoms("l2", Some("m2"), ComparisonUnitGroupType::Paragraph, 1),
        group_atoms("l3", Some("m3"), ComparisonUnitGroupType::Paragraph, 1),
        group_atoms("ls", Some("lt"), ComparisonUnitGroupType::Paragraph, 1),
    ];
    let right = vec![
        group_atoms("rp", Some("ro"), ComparisonUnitGroupType::Paragraph, 1),
        group_atoms("r0", Some("m0"), ComparisonUnitGroupType::Paragraph, 1),
        group_atoms("r1", Some("m1"), ComparisonUnitGroupType::Paragraph, 1),
        group_atoms("r2", Some("m2"), ComparisonUnitGroupType::Paragraph, 1),
        group_atoms("r3", Some("m3"), ComparisonUnitGroupType::Paragraph, 1),
        group_atoms("rs", Some("rt"), ComparisonUnitGroupType::Paragraph, 1),
    ];
    let unknown = CorrelatedSequence::paired(CorrelationStatus::Unknown, left, right);
    run_eq(correlated_hash_run_scan(&unknown), correlated_hash_run_indexed(&unknown));
    assert!(correlated_hash_run(&unknown).is_some());
}

#[test]
fn indexed_matches_scan_first_found_tiebreak() {
    let mk = |tag: &str, corr: &str| group_atoms(tag, Some(corr), ComparisonUnitGroupType::Paragraph, 2);
    let left = vec![
        mk("lx", "x"),
        mk("la0", "a0"),
        mk("la1", "a1"),
        mk("la2", "a2"),
        mk("la3", "a3"),
        mk("ly", "y"),
        mk("lb0", "a0"),
        mk("lb1", "a1"),
        mk("lb2", "a2"),
        mk("lb3", "a3"),
    ];
    let right = vec![
        mk("rz", "z"),
        mk("ra0", "a0"),
        mk("ra1", "a1"),
        mk("ra2", "a2"),
        mk("ra3", "a3"),
        mk("rw", "w"),
        mk("rb0", "a0"),
        mk("rb1", "a1"),
        mk("rb2", "a2"),
        mk("rb3", "a3"),
    ];
    let unknown = CorrelatedSequence::paired(CorrelationStatus::Unknown, left, right);
    let scan = correlated_hash_run_scan(&unknown).expect("scan");
    let idx = correlated_hash_run_indexed(&unknown).expect("idx");
    assert_eq!(
        (scan.left_start, scan.right_start, scan.len),
        (idx.left_start, idx.right_start, idx.len)
    );
    assert_eq!(scan.left_start, 1);
    assert_eq!(scan.right_start, 1);
    assert_eq!(scan.len, 4);
}

#[test]
fn indexed_matches_scan_threshold_decline_len1() {
    let left = vec![
        group_atoms("a", Some("m"), ComparisonUnitGroupType::Paragraph, 5),
        group_atoms("b", Some("x"), ComparisonUnitGroupType::Paragraph, 5),
        group_atoms("c", Some("y"), ComparisonUnitGroupType::Paragraph, 5),
    ];
    let right = vec![
        group_atoms("d", Some("m"), ComparisonUnitGroupType::Paragraph, 5),
        group_atoms("e", Some("u"), ComparisonUnitGroupType::Paragraph, 5),
        group_atoms("f", Some("v"), ComparisonUnitGroupType::Paragraph, 5),
    ];
    let unknown = CorrelatedSequence::paired(CorrelationStatus::Unknown, left, right);
    run_eq(correlated_hash_run_scan(&unknown), correlated_hash_run_indexed(&unknown));
    assert!(correlated_hash_run_scan(&unknown).is_none());
}

struct Lcg(u64);

impl Lcg {
    fn below(&mut self, n: u32) -> u32 {
        self.0 = self
            .0
            .wrapping_mul(6_364_136_223_846_793_005)
            .wrapping_add(1_442_695_040_888_963_407);
        ((self.0 >> 33) as u32) % n
    }
}

#[test]
fn indexed_matches_scan_random_trials() {
    let corrs = ["c0", "c1", "c2", "c3", "uniq"];
    let mut rng = Lcg(0xC0FF_EE42_DEAD_BEEF);
    for trial in 0..800 {
        let n = 3 + rng.below(8) as usize;
        let m = 3 + rng.below(8) as usize;
        let mut left = Vec::with_capacity(n);
        let mut right = Vec::with_capacity(m);
        for i in 0..n {
            let c = corrs[rng.below(corrs.len() as u32) as usize];
            let atoms = 1 + rng.below(20) as usize;
            left.push(group_atoms(
                &format!("L{trial}-{i}"),
                Some(c),
                ComparisonUnitGroupType::Paragraph,
                atoms,
            ));
        }
        for i in 0..m {
            let c = corrs[rng.below(corrs.len() as u32) as usize];
            let atoms = 1 + rng.below(20) as usize;
            right.push(group_atoms(
                &format!("R{trial}-{i}"),
                Some(c),
                ComparisonUnitGroupType::Paragraph,
                atoms,
            ));
        }
        if rng.below(10) == 0 {
            if let ComparisonUnit::Group(g) = &mut left[0] {
                g.correlated_sha1_hash = None;
            }
        }
        let unknown = CorrelatedSequence::paired(CorrelationStatus::Unknown, left, right);
        let scan = correlated_hash_run_scan(&unknown);
        let idx = correlated_hash_run_indexed(&unknown);
        assert_eq!(
            scan.map(|r| (r.left_start, r.right_start, r.len)),
            idx.map(|r| (r.left_start, r.right_start, r.len)),
            "trial {trial}"
        );
    }
}

#[test]
fn production_process_matches_scan_oracle_signature() {
    let left = vec![
        group_atoms("p", Some("pre"), ComparisonUnitGroupType::Paragraph, 2),
        group_atoms("0", Some("k0"), ComparisonUnitGroupType::Paragraph, 2),
        group_atoms("1", Some("k1"), ComparisonUnitGroupType::Paragraph, 2),
        group_atoms("2", Some("k2"), ComparisonUnitGroupType::Paragraph, 2),
        group_atoms("3", Some("k3"), ComparisonUnitGroupType::Paragraph, 2),
        group_atoms("s", Some("suf"), ComparisonUnitGroupType::Paragraph, 2),
    ];
    let right = vec![
        group_atoms("P", Some("PRE"), ComparisonUnitGroupType::Paragraph, 2),
        group_atoms("0", Some("k0"), ComparisonUnitGroupType::Paragraph, 2),
        group_atoms("1", Some("k1"), ComparisonUnitGroupType::Paragraph, 2),
        group_atoms("2", Some("k2"), ComparisonUnitGroupType::Paragraph, 2),
        group_atoms("3", Some("k3"), ComparisonUnitGroupType::Paragraph, 2),
        group_atoms("S", Some("SUF"), ComparisonUnitGroupType::Paragraph, 2),
    ];
    let unknown = CorrelatedSequence::paired(CorrelationStatus::Unknown, left, right);
    let got = process_correlated_hashes(&unknown).expect("resolve");
    let run = correlated_hash_run_scan(&unknown).expect("scan run");
    assert_eq!(
        correlated_hash_run(&unknown).map(|r| (r.left_start, r.right_start, r.len)),
        Some((run.left_start, run.right_start, run.len))
    );
    assert!(!got.is_empty());
}

use wml_comparer::comparer::atoms::{ComparisonUnit, ComparisonUnitAtom, ComparisonUnitWord, CorrelatedSequence};
use wml_comparer::comparer::lcs::{
    common_prefix_len, common_suffix_len, find_common_at_beginning_and_end, split_common_back,
    split_common_front,
};
use wml_comparer::comparer::CorrelationStatus;
use wml_comparer::namespaces::W;
use wml_comparer::xml::{Dom, NodeId};

fn unit(n: NodeId, hash: &str) -> ComparisonUnit {
    ComparisonUnit::Word(ComparisonUnitWord {
        correlation_status: CorrelationStatus::Nil,
        contents: vec![ComparisonUnitAtom::new(n, vec![], hash.to_string())],
        sha1_hash: hash.to_string(),
    })
}

fn shape(v: &[CorrelatedSequence]) -> Vec<(CorrelationStatus, usize, usize)> {
    v.iter()
        .map(|s| {
            (
                s.correlation_status,
                s.com_units_1.as_ref().map_or(0, |u| u.len()),
                s.com_units_2.as_ref().map_or(0, |u| u.len()),
            )
        })
        .collect()
}

#[test]
fn common_prefix_splits_off_an_equal_head() {
    let mut d = Dom::new();
    let t = d.new_element(W::t());
    let c1 = vec![unit(t, "a"), unit(t, "b"), unit(t, "x")];
    let c2 = vec![unit(t, "a"), unit(t, "b"), unit(t, "y")];
    assert_eq!(common_prefix_len(&c1, &c2), 2);
    let r = split_common_front(&d, &c1, &c2, 2);
    assert_eq!(shape(&r), vec![(CorrelationStatus::Equal, 2, 2), (CorrelationStatus::Unknown, 1, 1)]);
    let r = split_common_front(&d, &c1, &c2[..2], 2);
    assert_eq!(shape(&r), vec![(CorrelationStatus::Equal, 2, 2), (CorrelationStatus::Deleted, 1, 0)]);
}

#[test]
fn common_tail_splits_off_an_equal_end() {
    let mut d = Dom::new();
    let t = d.new_element(W::t());
    let ppr = d.new_element(W::p_pr());
    let c1 = vec![unit(t, "x"), unit(t, "a"), unit(t, "b")];
    let c2 = vec![unit(t, "y"), unit(t, "z"), unit(t, "a"), unit(t, "b")];
    assert_eq!(common_suffix_len(&d, &c1, &c2), (2, false));
    let r = split_common_back(&d, &c1, &c2, 2);
    assert_eq!(shape(&r), vec![(CorrelationStatus::Unknown, 1, 2), (CorrelationStatus::Equal, 2, 2)]);
    // A tail that is only the final paragraph mark does not count.
    let m1 = vec![unit(t, "x"), unit(ppr, "pm")];
    let m2 = vec![unit(t, "y"), unit(ppr, "pm")];
    assert_eq!(common_suffix_len(&d, &m1, &m2), (1, true));
    // A tail never starts with a bare paragraph mark.
    let k1 = vec![unit(t, "x"), unit(ppr, "pm"), unit(t, "a")];
    let k2 = vec![unit(t, "y"), unit(ppr, "pm"), unit(t, "a")];
    assert_eq!(common_suffix_len(&d, &k1, &k2), (1, false));
}

fn pair(c1: Vec<ComparisonUnit>, c2: Vec<ComparisonUnit>) -> CorrelatedSequence {
    CorrelatedSequence {
        correlation_status: CorrelationStatus::Unknown,
        com_units_1: Some(c1),
        com_units_2: Some(c2),
    }
}

#[test]
fn common_ends_respect_the_detail_threshold() {
    let mut d = Dom::new();
    let t = d.new_element(W::t());
    let ppr = d.new_element(W::p_pr());
    // a common head of 2 of 4 units: half the shorter side
    let s = pair(
        vec![unit(t, "a"), unit(t, "b"), unit(t, "x"), unit(t, "u")],
        vec![unit(t, "a"), unit(t, "b"), unit(t, "y"), unit(t, "v")],
    );
    let r = find_common_at_beginning_and_end(&d, &s, 500_000).unwrap();
    assert_eq!(shape(&r), vec![(CorrelationStatus::Equal, 2, 2), (CorrelationStatus::Unknown, 2, 2)]);
    // just above one half, the head is too short, and there is no common tail
    assert!(find_common_at_beginning_and_end(&d, &s, 500_001).is_none());
    // a common tail of 2 of 3 units
    let s = pair(
        vec![unit(t, "x"), unit(t, "a"), unit(t, "b")],
        vec![unit(t, "y"), unit(t, "a"), unit(t, "b")],
    );
    let r = find_common_at_beginning_and_end(&d, &s, 20_000).unwrap();
    assert_eq!(shape(&r), vec![(CorrelationStatus::Unknown, 1, 1), (CorrelationStatus::Equal, 2, 2)]);
    assert!(find_common_at_beginning_and_end(&d, &s, 700_000).is_none());
    // a tail that is only the paragraph mark does not count
    let s = pair(vec![unit(t, "x"), unit(ppr, "pm")], vec![unit(t, "y"), unit(ppr, "pm")]);
    assert!(find_common_at_beginning_and_end(&d, &s, 0).is_none());
    // an absent side has nothing in common
    let s = CorrelatedSequence {
        correlation_status: CorrelationStatus::Unknown,
        com_units_1: None,
        com_units_2: Some(vec![unit(t, "a")]),
    };
    assert!(find_common_at_beginning_and_end(&d, &s, 0).is_none());
}

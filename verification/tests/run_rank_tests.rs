use wml_comparer::comparer::atoms::{ComparisonUnit, ComparisonUnitAtom, ComparisonUnitWord};
use wml_comparer::comparer::lcs::longest_common_run;
use wml_comparer::comparer::lcs_score::{
    common_run_content_score, longest_common_run_scan, longest_common_run_with_dom,
    non_separator_prefix_sums, run_non_separator_text_len, unit_non_separator_text_len,
};
use wml_comparer::comparer::CorrelationStatus;
use wml_comparer::namespaces::W;
use wml_comparer::xml::{Dom, NodeId};

fn word(d: &mut Dom, text: &str) -> ComparisonUnit {
    let t = d.new_element(W::t());
    d.add_text(t, text);
    unit(t, text)
}

fn unit(n: NodeId, hash: &str) -> ComparisonUnit {
    ComparisonUnit::Word(ComparisonUnitWord {
        correlation_status: CorrelationStatus::Nil,
        contents: vec![ComparisonUnitAtom::new(n, vec![], hash.to_string())],
        sha1_hash: hash.to_string(),
    })
}

fn seps() -> Vec<char> {
    " -)(;,".chars().collect()
}

#[test]
fn content_skips_separators_and_whitespace() {
    let mut d = Dom::new();
    let s = seps();
    let hello = word(&mut d, "Hello,");
    let spaces = word(&mut d, " \u{a0}\t");
    assert_eq!(unit_non_separator_text_len(&d, &hello, &s), 5);
    assert_eq!(unit_non_separator_text_len(&d, &spaces, &s), 0);
    // only `w:t` atoms count
    let tab = d.new_element(W::name("tab"));
    assert_eq!(unit_non_separator_text_len(&d, &unit(tab, "tab"), &s), 0);
    let run = vec![hello, spaces, word(&mut d, "(world)")];
    assert_eq!(run_non_separator_text_len(&d, &run, &s), 10);
    assert_eq!(non_separator_prefix_sums(&d, &run, &s), vec![0, 5, 5, 10]);
}

#[test]
fn score_is_content_in_word_mode_and_length_otherwise() {
    let mut d = Dom::new();
    let s = seps();
    let run = vec![word(&mut d, "ab"), word(&mut d, " "), word(&mut d, "cde")];
    let p = non_separator_prefix_sums(&d, &run, &s);
    assert_eq!(common_run_content_score(Some(&d), &run, 1, 2, Some(&s), None), 3);
    assert_eq!(common_run_content_score(Some(&d), &run, 1, 2, Some(&s), Some(&p)), 3);
    assert_eq!(common_run_content_score(Some(&d), &run, 0, 3, Some(&s), Some(&p)), 5);
    assert_eq!(common_run_content_score(None, &run, 1, 2, Some(&s), None), 2);
    assert_eq!(common_run_content_score(Some(&d), &run, 1, 2, None, None), 2);
}

#[test]
fn content_breaks_length_ties() {
    let mut d = Dom::new();
    let s = seps();
    let sp = word(&mut d, " ");
    let sp2 = unit(match &sp {
        ComparisonUnit::Word(w) => w.contents[0].content_element,
        _ => unreachable!(),
    }, " ");
    let a = word(&mut d, "alpha");
    let a2 = unit(match &a {
        ComparisonUnit::Word(w) => w.contents[0].content_element,
        _ => unreachable!(),
    }, "alpha");
    let x = word(&mut d, "x");
    let y = word(&mut d, "y");
    // two common runs of length one: a space first, a word after
    let c1 = vec![sp, x, a];
    let c2 = vec![sp2, y, a2];
    // by length the first one wins
    assert_eq!(longest_common_run(&c1, &c2), (0, 0, 1));
    assert_eq!(longest_common_run_scan(None, &c1, &c2, None), (0, 0, 1));
    // by content the word wins
    assert_eq!(longest_common_run_with_dom(Some(&d), &c1, &c2, Some(&s)), (2, 2, 1));
    assert_eq!(longest_common_run_scan(Some(&d), &c1, &c2, Some(&s)), (2, 2, 1));
}

#[test]
fn longer_runs_win_at_equal_content() {
    let mut d = Dom::new();
    let s = seps();
    let t = d.new_element(W::t());
    d.add_text(t, "w");
    let sp = d.new_element(W::t());
    d.add_text(sp, " ");
    let c1 = vec![unit(t, "w"), unit(t, "z"), unit(t, "w"), unit(sp, " ")];
    let c2 = vec![unit(t, "w"), unit(t, "q"), unit(t, "w"), unit(sp, " ")];
    // both runs hold one content character; the second is longer
    assert_eq!(longest_common_run_with_dom(Some(&d), &c1, &c2, Some(&s)), (2, 2, 2));
    // nothing in common
    let c3 = vec![unit(t, "k")];
    assert_eq!(longest_common_run_with_dom(Some(&d), &c1, &c3, Some(&s)), (0, 0, 0));
}

use wml_comparer::comparer::atoms::ComparisonUnitAtom;
use wml_comparer::comparer::lcs::TaggedAtom;
use wml_comparer::comparer::produce::{
    build_text_run, has_element_child, produce_document, wrap_run, RevIdSource,
};
use wml_comparer::comparer::CorrelationStatus;
use wml_comparer::namespaces::W;
use wml_comparer::xml::{Dom, NodeId};

fn show(d: &Dom, n: NodeId) -> String {
    if d.is_text(n) {
        return format!("'{}'", d.value_str(n));
    }
    let name = d.name(n).map(|x| x.local_name().to_string()).unwrap_or_else(|| "#doc".to_string());
    let mut out = name;
    let ac = d.attr_count(n);
    if ac > 0 {
        let attrs: Vec<String> = (0..ac)
            .map(|i| {
                let a = d.attr_at(n, i).unwrap();
                if a.name.namespace_name() == "http://www.w3.org/2000/xmlns/" {
                    format!("xmlns:{}", a.name.local_name())
                } else {
                    format!("{}={}", a.name.local_name(), a.value)
                }
            })
            .collect();
        out.push_str(&format!("[{}]", attrs.join(",")));
    }
    let cc = d.child_count(n);
    if cc > 0 {
        let kids: Vec<String> = (0..cc).map(|i| show(d, d.child_at(n, i))).collect();
        out.push_str(&format!("({})", kids.join(" ")));
    }
    out
}

fn text_el(d: &mut Dom, local: &str, text: &str) -> NodeId {
    let e = d.new_element(W::name(local));
    d.add_text(e, text);
    e
}

fn tagged(n: NodeId, status: CorrelationStatus) -> TaggedAtom {
    TaggedAtom { atom: ComparisonUnitAtom::new(n, vec![], "h".to_string()), status }
}

#[test]
fn runs_group_by_status_and_revisions_get_ids() {
    let mut d = Dom::new();
    let hello = text_el(&mut d, "t", "Hello ");
    let world = text_el(&mut d, "t", "world");
    let ppr1 = d.new_element(W::p_pr());
    let jc = d.new_element(W::name("jc"));
    d.add(ppr1, jc);
    let new = text_el(&mut d, "t", "new");
    let tab = d.new_element(W::name("tab"));
    let more = text_el(&mut d, "t", " more");
    let ppr2 = d.new_element(W::p_pr());
    let tail = text_el(&mut d, "t", "tail");
    let atoms = vec![
        tagged(hello, CorrelationStatus::Equal),
        tagged(world, CorrelationStatus::Deleted),
        tagged(ppr1, CorrelationStatus::Equal),
        tagged(new, CorrelationStatus::Inserted),
        tagged(tab, CorrelationStatus::Inserted),
        tagged(more, CorrelationStatus::Inserted),
        tagged(ppr2, CorrelationStatus::Equal),
        tagged(tail, CorrelationStatus::Equal),
    ];
    let before = d.len();
    let mut ids = RevIdSource::new();
    let doc = produce_document(&mut d, &atoms, "A", "D", &mut ids);
    assert!(doc.0 >= before);
    assert_eq!(
        show(&d, doc),
        "#doc(document[xmlns:w,xmlns:pt14](body(\
p(pPr(jc) r(t[space=preserve]('Hello ')) del[id=1,author=A,date=D](r(delText('world')))) \
p(ins[id=2,author=A,date=D](r(t('new more')))) \
p(r(t('tail'))))))"
    );
    assert_eq!(ids.next_rev_id(), "3");
    // the source is untouched
    assert_eq!(d.child_count(ppr1), 1);
}

#[test]
fn empty_stream_gives_an_empty_body() {
    let mut d = Dom::new();
    let mut ids = RevIdSource::new();
    let doc = produce_document(&mut d, &[], "A", "D", &mut ids);
    assert_eq!(show(&d, doc), "#doc(document[xmlns:w,xmlns:pt14](body))");
    assert_eq!(ids.next_rev_id(), "1");
}

#[test]
fn textless_groups_and_empty_marks_give_bare_paragraphs() {
    let mut d = Dom::new();
    let br = d.new_element(W::name("br"));
    let ppr = d.new_element(W::p_pr());
    let atoms = vec![tagged(br, CorrelationStatus::Deleted), tagged(ppr, CorrelationStatus::Deleted)];
    let mut ids = RevIdSource::new();
    let doc = produce_document(&mut d, &atoms, "A", "D", &mut ids);
    assert_eq!(show(&d, doc), "#doc(document[xmlns:w,xmlns:pt14](body(p)))");
    assert_eq!(ids.next_rev_id(), "1");
}

#[test]
fn text_runs_keep_edge_spaces() {
    let mut d = Dom::new();
    let r = build_text_run(&mut d, "a b", false);
    assert_eq!(show(&d, r), "r(t('a b'))");
    let r2 = build_text_run(&mut d, "gone ", true);
    assert_eq!(show(&d, r2), "r(delText[space=preserve]('gone '))");
    let mut ids = RevIdSource::new();
    let w = wrap_run(&mut d, "x", false, "me", "today", CorrelationStatus::Inserted, &mut ids);
    assert_eq!(show(&d, w), "ins[id=1,author=me,date=today](r(t('x')))");
    let w2 = wrap_run(&mut d, "y", true, "me", "today", CorrelationStatus::Deleted, &mut ids);
    assert_eq!(show(&d, w2), "del[id=2,author=me,date=today](r(delText('y')))");
    assert!(!has_element_child(&d, d.child_at(r, 0)));
    assert!(has_element_child(&d, r));
}

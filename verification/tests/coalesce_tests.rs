use wml_comparer::comparer::atoms::ComparisonUnitAtom;
use wml_comparer::comparer::coalesce::{coalesce_recurse, is_allowable_run_child};
use wml_comparer::comparer::produce::RevIdSource;
use wml_comparer::comparer::CorrelationStatus;
use wml_comparer::namespaces::{M, PT, W};
use wml_comparer::xml::{Dom, NodeId, XName};

fn render(d: &Dom, n: NodeId) -> String {
    if d.is_text(n) {
        return format!("'{}'", d.value_str(n));
    }
    let mut out = d.name(n).map(|x| x.local_name().to_string()).unwrap_or_default();
    let ac = d.attr_count(n);
    if ac > 0 {
        let attrs: Vec<String> = (0..ac)
            .map(|i| {
                let a = d.attr_at(n, i).unwrap();
                format!("{}={}", a.name.local_name(), a.value)
            })
            .collect();
        out.push_str(&format!("[{}]", attrs.join(",")));
    }
    let cc = d.child_count(n);
    if cc > 0 {
        let kids: Vec<String> = (0..cc).map(|i| render(d, d.child_at(n, i))).collect();
        out.push_str(&format!("({})", kids.join(" ")));
    }
    out
}

fn leaf(d: &mut Dom, name: XName, text: &str) -> NodeId {
    let e = d.new_element(name);
    if !text.is_empty() {
        d.add_text(e, text);
    }
    e
}

fn atom_at(
    content: NodeId,
    ancestors: Vec<NodeId>,
    unids: &[&str],
    status: CorrelationStatus,
) -> ComparisonUnitAtom {
    let mut a = ComparisonUnitAtom::new(content, ancestors, "h".to_string());
    a.ancestor_unids = Some(unids.iter().map(|s| s.to_string()).collect());
    a.correlation_status = status;
    a
}

#[test]
fn paragraph_and_runs_are_rebuilt_per_status() {
    let mut d = Dom::new();
    let p = d.new_element(W::p());
    d.set_attribute_value(p, &W::name("rsidR"), Some("00A1"));
    d.set_attribute_value(p, &PT::unid(), Some("old"));
    let r = d.new_element(W::r());
    d.set_attribute_value(r, &PT::name("PreDelete"), Some("orig"));
    d.set_attribute_value(r, &PT::name("Status"), Some("Equal"));
    let rpr = d.new_element(W::name("rPr"));
    let b = d.new_element(W::name("b"));
    d.add(rpr, b);
    d.add(r, rpr);
    let t1 = leaf(&mut d, W::t(), "Hello ");
    let t2 = leaf(&mut d, W::t(), "world");
    d.add(r, t1);
    d.add(r, t2);
    d.add(p, r);
    let atoms = vec![
        atom_at(t1, vec![p, r, t1], &["u1", "u2", "u3"], CorrelationStatus::Equal),
        atom_at(t2, vec![p, r, t2], &["u1", "u2", "u3"], CorrelationStatus::Deleted),
    ];
    let mut ids = RevIdSource::new();
    let before = d.len();
    let out = coalesce_recurse(&mut d, &atoms, 0, "me", "today", &mut ids);
    assert_eq!(out.len(), 1);
    assert!(out[0].0 >= before);
    assert_eq!(d.parent(out[0]), None);
    assert_eq!(
        render(&d, out[0]),
        "p[rsidR=00A1,Unid=u1](r[PreDelete=orig](rPr(b) t[space=preserve]('Hello ')) r[PreDelete=orig](rPr(b) delText[Status=Deleted]('world')))"
    );
    // the source tree is untouched
    assert_eq!(render(&d, t2), "t('world')");
    assert_eq!(d.parent(t2), Some(r));
}

#[test]
fn deleted_math_is_wrapped_in_a_revision_with_the_next_id() {
    let mut d = Dom::new();
    let p = d.new_element(W::p());
    let math = d.new_element(M::name("oMath"));
    let mr = leaf(&mut d, M::name("r"), "x");
    d.add(math, mr);
    d.add(p, math);
    let atoms = vec![atom_at(math, vec![p, math], &["u1", "u9"], CorrelationStatus::Deleted)];
    let mut ids = RevIdSource::new();
    let out = coalesce_recurse(&mut d, &atoms, 0, "me", "today", &mut ids);
    assert_eq!(out.len(), 1);
    assert_eq!(
        render(&d, out[0]),
        "p[Unid=u1](del[author=me,id=1,date=today](oMath(r('x'))))"
    );
    assert_eq!(ids.next_rev_id(), "2");
}

#[test]
fn table_is_reconstructed_with_its_properties_first() {
    let mut d = Dom::new();
    let tbl = d.new_element(W::name("tbl"));
    let tr = d.new_element(W::name("tr"));
    let tc = d.new_element(W::name("tc"));
    let p = d.new_element(W::p());
    let r = d.new_element(W::r());
    let t = leaf(&mut d, W::t(), "cell");
    let tblpr = d.new_element(W::name("tblPr"));
    let tblw = d.new_element(W::name("tblW"));
    d.add(tblpr, tblw);
    d.add(r, t);
    d.add(p, r);
    d.add(tc, p);
    d.add(tr, tc);
    d.add(tbl, tr);
    d.add(tbl, tblpr);
    let atoms = vec![atom_at(
        t,
        vec![tbl, tr, tc, p, r, t],
        &["a", "b", "c", "d", "e", "f"],
        CorrelationStatus::Inserted,
    )];
    let mut ids = RevIdSource::new();
    let out = coalesce_recurse(&mut d, &atoms, 0, "me", "today", &mut ids);
    assert_eq!(out.len(), 1);
    assert_eq!(
        render(&d, out[0]),
        "tbl(tblPr(tblW) tr(tc(p[Unid=d](r(t[Status=Inserted]('cell'))))))"
    );
    assert_eq!(ids.next_rev_id(), "1");
}

#[test]
fn atoms_without_identity_give_nothing() {
    let mut d = Dom::new();
    let p = d.new_element(W::p());
    let t = leaf(&mut d, W::t(), "x");
    d.add(p, t);
    let mut a = ComparisonUnitAtom::new(t, vec![p, t], "h".to_string());
    a.correlation_status = CorrelationStatus::Equal;
    let b = atom_at(t, vec![p, t], &["", "z"], CorrelationStatus::Equal);
    let mut ids = RevIdSource::new();
    let before = d.len();
    assert!(coalesce_recurse(&mut d, &[a, b], 0, "me", "today", &mut ids).is_empty());
    assert_eq!(d.len(), before);
    let c = atom_at(t, vec![p, t], &["u", "v"], CorrelationStatus::Equal);
    assert!(coalesce_recurse(&mut d, &[c], 2, "me", "today", &mut ids).is_empty());
}

#[test]
fn deleted_drawing_text_becomes_deleted_text() {
    let mut d = Dom::new();
    let p = d.new_element(W::p());
    let r = d.new_element(W::r());
    let drawing = d.new_element(W::name("drawing"));
    let inner = leaf(&mut d, W::t(), "caption");
    d.add(drawing, inner);
    d.add(r, drawing);
    d.add(p, r);
    let atoms = vec![atom_at(drawing, vec![p, r, drawing], &["u1", "u2", "u3"], CorrelationStatus::Deleted)];
    let mut ids = RevIdSource::new();
    let out = coalesce_recurse(&mut d, &atoms, 0, "me", "today", &mut ids);
    assert_eq!(
        render(&d, out[0]),
        "p[Unid=u1](r(drawing[Status=Deleted](delText('caption'))))"
    );
    assert_eq!(render(&d, drawing), "drawing(t('caption'))");
}

#[test]
fn run_children_recognised_whole() {
    assert!(is_allowable_run_child(&W::name("tab")));
    assert!(is_allowable_run_child(&W::name("instrText")));
    assert!(is_allowable_run_child(&M::name("oMath")));
    assert!(!is_allowable_run_child(&W::t()));
    assert!(!is_allowable_run_child(&M::name("tab")));
}

#[test]
fn text_of_one_status_joins_in_one_element() {
    let mut d = Dom::new();
    let p = d.new_element(W::p());
    let r = d.new_element(W::r());
    let t1 = leaf(&mut d, W::t(), "Hel");
    let t2 = leaf(&mut d, W::t(), "lo ");
    d.add(r, t1);
    d.add(r, t2);
    d.add(p, r);
    let atoms = vec![
        atom_at(t1, vec![p, r, t1], &["u1", "u2", "u3"], CorrelationStatus::Inserted),
        atom_at(t2, vec![p, r, t2], &["u1", "u2", "u3"], CorrelationStatus::Inserted),
    ];
    let mut ids = RevIdSource::new();
    let out = coalesce_recurse(&mut d, &atoms, 0, "me", "today", &mut ids);
    assert_eq!(
        render(&d, out[0]),
        "p[Unid=u1](r(t[Status=Inserted,space=preserve]('Hello ')))"
    );
}

#[test]
fn text_runs_split_by_status_keep_their_labels() {
    let mut d = Dom::new();
    let te = d.new_element(W::t());
    let c1 = leaf(&mut d, W::t(), "a");
    let c2 = leaf(&mut d, W::t(), "b");
    let c3 = leaf(&mut d, W::t(), "c");
    let atoms = vec![
        atom_at(c1, vec![te], &["u"], CorrelationStatus::Deleted),
        atom_at(c2, vec![te], &["u"], CorrelationStatus::Deleted),
        atom_at(c3, vec![te], &["u"], CorrelationStatus::MovedSource),
    ];
    let mut ids = RevIdSource::new();
    let out = coalesce_recurse(&mut d, &atoms, 0, "me", "today", &mut ids);
    assert_eq!(out.len(), 2);
    assert_eq!(render(&d, out[0]), "delText[Status=Deleted]('ab')");
    assert_eq!(render(&d, out[1]), "t[Status=MovedSource]('c')");
    assert_eq!(ids.next_rev_id(), "1");
}

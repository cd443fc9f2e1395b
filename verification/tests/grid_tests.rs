use wml_comparer::comparer::grid::{real_column_count, rebuild_degenerate_grid};
use wml_comparer::namespaces::W;
use wml_comparer::xml::{Dom, NodeId};

fn el(d: &mut Dom, parent: NodeId, local: &str) -> NodeId {
    let e = d.new_element(W::name(local));
    d.add(parent, e);
    e
}

fn set(d: &mut Dom, n: NodeId, local: &str, v: &str) {
    d.set_attribute_value(n, &W::name(local), Some(v));
}

fn attr(d: &Dom, n: NodeId, local: &str) -> Option<String> {
    d.attribute(n, &W::name(local)).map(|s| s.to_string())
}

fn local(d: &Dom, n: NodeId) -> String {
    d.name(n).map(|x| x.local_name().to_string()).unwrap_or_default()
}

/// A body holding one table of one row with cells spanning `spans` grid
/// columns; the grid declares `grid_widths`. Returns (dom, body, table, grid).
fn table(spans: &[&str], grid_widths: &[&str]) -> (Dom, NodeId, NodeId, NodeId) {
    let mut d = Dom::new();
    let doc = d.new_document();
    let body = el(&mut d, doc, "body");
    let tbl = el(&mut d, body, "tbl");
    let pr = el(&mut d, tbl, "tblPr");
    el(&mut d, pr, "tblStyle");
    el(&mut d, pr, "jc");
    let grid = el(&mut d, tbl, "tblGrid");
    for w in grid_widths {
        let c = el(&mut d, grid, "gridCol");
        set(&mut d, c, "w", w);
    }
    let tr = el(&mut d, tbl, "tr");
    for s in spans {
        let tc = el(&mut d, tr, "tc");
        if !s.is_empty() {
            let tcpr = el(&mut d, tc, "tcPr");
            let gs = el(&mut d, tcpr, "gridSpan");
            set(&mut d, gs, "val", s);
        }
    }
    (d, body, tbl, grid)
}

fn grid_widths(d: &Dom, grid: NodeId) -> Vec<String> {
    d.elements(grid, Some(&W::name("gridCol")))
        .into_iter()
        .map(|c| attr(d, c, "w").unwrap_or_default())
        .collect()
}

#[test]
fn real_columns_take_the_widest_row() {
    let (mut d, _, tbl, _) = table(&["", "2", ""], &["9000"]);
    assert_eq!(real_column_count(&d, tbl), 4);
    let tr = el(&mut d, tbl, "tr");
    el(&mut d, tr, "tc");
    assert_eq!(real_column_count(&d, tbl), 4);
    let tr2 = el(&mut d, tbl, "tr");
    let tc = el(&mut d, tr2, "tc");
    let tcpr = el(&mut d, tc, "tcPr");
    let gs = el(&mut d, tcpr, "gridSpan");
    set(&mut d, gs, "val", "7");
    assert_eq!(real_column_count(&d, tbl), 7);
}

#[test]
fn unparsable_span_counts_one() {
    let (d, _, tbl, _) = table(&["x", "-1", ""], &[]);
    assert_eq!(real_column_count(&d, tbl), 3);
}

#[test]
fn grid_splits_section_content_width() {
    let (mut d, body, tbl, grid) = table(&["", "2"], &["9000"]);
    let sect = el(&mut d, body, "sectPr");
    let pgsz = el(&mut d, sect, "pgSz");
    set(&mut d, pgsz, "w", "12240");
    let mar = el(&mut d, sect, "pgMar");
    set(&mut d, mar, "left", "1440");
    set(&mut d, mar, "right", "1440");
    rebuild_degenerate_grid(&mut d, tbl, tbl);
    assert_eq!(grid_widths(&d, grid), vec!["3120", "3120", "3120"]);
    // the old column is gone from the grid
    assert_eq!(d.child_count(grid), 3);
    let pr = d.element(tbl, &W::name("tblPr")).unwrap();
    let kids: Vec<String> = (0..d.child_count(pr)).map(|i| local(&d, d.child_at(pr, i))).collect();
    assert_eq!(kids, vec!["tblStyle", "tblW", "jc"]);
    let tblw = d.element(pr, &W::name("tblW")).unwrap();
    assert_eq!(attr(&d, tblw, "w").as_deref(), Some("0"));
    assert_eq!(attr(&d, tblw, "type").as_deref(), Some("auto"));
}

#[test]
fn grid_falls_back_to_declared_width_and_last_takes_remainder() {
    let (mut d, _, tbl, grid) = table(&["", "", ""], &["600", "400"]);
    let change = el(&mut d, grid, "tblGridChange");
    rebuild_degenerate_grid(&mut d, tbl, tbl);
    assert_eq!(grid_widths(&d, grid), vec!["333", "333", "334"]);
    // the new columns come before the grid's history
    assert_eq!(d.child_count(grid), 4);
    assert_eq!(d.child_at(grid, 3), change);
}

#[test]
fn existing_table_width_is_reset_in_place() {
    let (mut d, _, tbl, grid) = table(&["", ""], &["100"]);
    let pr = d.element(tbl, &W::name("tblPr")).unwrap();
    let tblw = el(&mut d, pr, "tblW");
    set(&mut d, tblw, "w", "5000");
    set(&mut d, tblw, "type", "dxa");
    rebuild_degenerate_grid(&mut d, tbl, tbl);
    assert_eq!(grid_widths(&d, grid), vec!["50", "50"]);
    assert_eq!(d.elements(pr, Some(&W::name("tblW"))).len(), 1);
    assert_eq!(attr(&d, tblw, "w").as_deref(), Some("0"));
    assert_eq!(attr(&d, tblw, "type").as_deref(), Some("auto"));
}

#[test]
fn sound_grid_is_left_alone() {
    let (mut d, _, tbl, grid) = table(&["", ""], &["100", "200"]);
    let before = d.len();
    rebuild_degenerate_grid(&mut d, tbl, tbl);
    assert_eq!(grid_widths(&d, grid), vec!["100", "200"]);
    assert_eq!(d.len(), before);
    // a single real column is never rebuilt
    let (mut d2, _, tbl2, grid2) = table(&[""], &[]);
    rebuild_degenerate_grid(&mut d2, tbl2, tbl2);
    assert_eq!(grid_widths(&d2, grid2), Vec::<String>::new());
}

#[test]
fn no_positive_width_leaves_grid() {
    let (mut d, body, tbl, grid) = table(&["", "", ""], &["abc"]);
    let sect = el(&mut d, body, "sectPr");
    let pgsz = el(&mut d, sect, "pgSz");
    set(&mut d, pgsz, "w", "1000");
    let mar = el(&mut d, sect, "pgMar");
    set(&mut d, mar, "left", "600");
    set(&mut d, mar, "right", "600");
    rebuild_degenerate_grid(&mut d, tbl, tbl);
    assert_eq!(grid_widths(&d, grid), vec!["abc"]);
}

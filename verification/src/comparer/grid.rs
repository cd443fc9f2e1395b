//! Rebuilding a degenerate table grid: when a table declares fewer grid
//! columns than its widest row spans, its grid is replaced by columns that
//! split the page's content width evenly, and the table's width is set to
//! automatic.

use vstd::prelude::*;

use super::lists::child_named;
use super::produce::{add_tblpr_child_in_order, insert_pos, tblpr_rank};
use crate::namespaces::{w_name, W};
use crate::text::{decimal, parse_i64, parse_i64_str, parse_usize, parse_usize_str, u64_to_decimal};
use crate::xml::{
    ancestors_of, attached, attribute_of, descendants_of, detached, elements_of, ids,
    lemma_select_below_selects, name_of, selects, with_attr, Dom, KindView, NodeId, NodeView,
};

verus! {

// ── columns spanned ─────────────────────────────────────────────────────────

/// The grid columns a cell spans: its `w:tcPr/w:gridSpan/@w:val` read as a
/// `usize`, else one.
pub open spec fn grid_span(d: Seq<NodeView>, tc: int) -> nat {
    match child_named(d, tc, w_name("tcPr"@)) {
        Some(pr) => match child_named(d, pr as int, w_name("gridSpan"@)) {
            Some(gs) => match attribute_of(d, gs as int, w_name("val"@)) {
                Some(v) => match parse_usize(v) {
                    Some(n) => n as nat,
                    None => 1,
                },
                None => 1,
            },
            None => 1,
        },
        None => 1,
    }
}

/// The columns spanned by the cells `tcs`.
pub open spec fn span_sum(d: Seq<NodeView>, tcs: Seq<usize>) -> nat
    decreases tcs.len(),
{
    if tcs.len() == 0 {
        0
    } else {
        span_sum(d, tcs.drop_last()) + grid_span(d, tcs.last() as int)
    }
}

/// The columns spanned by the cells of row `tr`.
pub open spec fn row_span(d: Seq<NodeView>, tr: int) -> nat {
    span_sum(d, elements_of(d, tr, Some(w_name("tc"@))))
}

/// The most columns any of the rows `trs` spans.
pub open spec fn widest_row(d: Seq<NodeView>, trs: Seq<usize>) -> nat
    decreases trs.len(),
{
    if trs.len() == 0 {
        0
    } else {
        let m = widest_row(d, trs.drop_last());
        let r = row_span(d, trs.last() as int);
        if r > m {
            r
        } else {
            m
        }
    }
}

/// The real column count of a table: the most columns a row spans.
pub open spec fn real_columns(d: Seq<NodeView>, tbl: int) -> nat {
    widest_row(d, elements_of(d, tbl, Some(w_name("tr"@))))
}

/// Every row's span fits in a `usize`.
pub open spec fn spans_fit(d: Seq<NodeView>, tbl: int) -> bool {
    forall|k: int|
        0 <= k < elements_of(d, tbl, Some(w_name("tr"@))).len() ==> #[trigger] row_span(
            d,
            elements_of(d, tbl, Some(w_name("tr"@)))[k] as int,
        ) <= usize::MAX
}

// ── content width ───────────────────────────────────────────────────────────

/// The `w:` attribute `local` of node `n`, read as an `i64`.
pub open spec fn attr_i64(d: Seq<NodeView>, n: int, local: Seq<char>) -> Option<int> {
    match attribute_of(d, n, w_name(local)) {
        Some(v) => match parse_i64(v) {
            Some(x) => Some(x as int),
            None => None,
        },
        None => None,
    }
}

/// The section properties governing a table: the first `w:sectPr` under the
/// root of the tree holding `src`, when `src` has ancestors.
pub open spec fn section_of(d: Seq<NodeView>, src: int) -> Option<usize> {
    let a = ancestors_of(d, src);
    if a.len() == 0 {
        None
    } else {
        let s = descendants_of(d, a.last() as int, Some(w_name("sectPr"@)));
        if s.len() == 0 {
            None
        } else {
            Some(s[0])
        }
    }
}

/// The page width and the left and right margins of a section.
pub open spec fn page_geometry(d: Seq<NodeView>, sect: int) -> Option<(int, int, int)> {
    match child_named(d, sect, w_name("pgSz"@)) {
        Some(sz) => match attr_i64(d, sz as int, "w"@) {
            Some(w) => match child_named(d, sect, w_name("pgMar"@)) {
                Some(mar) => match (attr_i64(d, mar as int, "left"@), attr_i64(d, mar as int, "right"@)) {
                    (Some(l), Some(r)) => Some((w, l, r)),
                    _ => None,
                },
                None => None,
            },
            None => None,
        },
        None => None,
    }
}

/// The content width of the section governing `src`: page width less the
/// margins.
pub open spec fn section_width(d: Seq<NodeView>, src: int) -> Option<int> {
    match section_of(d, src) {
        Some(s) => match page_geometry(d, s as int) {
            Some((w, l, r)) => Some(w - l - r),
            None => None,
        },
        None => None,
    }
}

/// The widths the grid columns `cols` declare, summed (columns without a
/// readable width count for nothing).
pub open spec fn declared_width(d: Seq<NodeView>, cols: Seq<usize>) -> int
    decreases cols.len(),
{
    if cols.len() == 0 {
        0
    } else {
        declared_width(d, cols.drop_last()) + match attr_i64(d, cols.last() as int, "w"@) {
            Some(x) => x,
            None => 0,
        }
    }
}

/// The width to split: the section's content width when positive, else the
/// width the old grid declared.
pub open spec fn content_width(d: Seq<NodeView>, src: int, cols: Seq<usize>) -> int {
    match section_width(d, src) {
        Some(w) => if w > 0 {
            w
        } else {
            declared_width(d, cols)
        },
        None => declared_width(d, cols),
    }
}

/// An `i64` holds `x`.
pub open spec fn fits_i64(x: int) -> bool {
    i64::MIN <= x <= i64::MAX
}

/// The width arithmetic stays within `i64`: the margins subtract without
/// overflow, and, where the declared widths are used, every partial sum fits.
pub open spec fn widths_fit(d: Seq<NodeView>, src: int, cols: Seq<usize>) -> bool {
    &&& match section_of(d, src) {
        Some(s) => match page_geometry(d, s as int) {
            Some((w, l, r)) => fits_i64(w - l) && fits_i64(w - l - r),
            None => true,
        },
        None => true,
    }
    &&& (match section_width(d, src) {
        Some(w) => w <= 0,
        None => true,
    }) ==> forall|k: int| 0 <= k <= cols.len() ==> #[trigger] fits_i64(declared_width(d, cols.take(k)))
}

// ── the new grid ────────────────────────────────────────────────────────────

/// `n` columns splitting `width` evenly, the last taking what the division
/// leaves over.
pub open spec fn even_widths(width: int, n: nat) -> Seq<int> {
    Seq::new(
        n,
        |i: int|
            if i + 1 == n {
                width - (width / (n as int)) * (n - 1)
            } else {
                width / (n as int)
            },
    )
}

/// The sum of `s`.
pub open spec fn seq_sum(s: Seq<int>) -> int
    decreases s.len(),
{
    if s.len() == 0 {
        0
    } else {
        seq_sum(s.drop_last()) + s.last()
    }
}

/// The grid of a table.
pub open spec fn grid_of(d: Seq<NodeView>, tbl: int) -> Option<usize> {
    child_named(d, tbl, w_name("tblGrid"@))
}

/// The grid columns of grid `g`.
pub open spec fn grid_cols(d: Seq<NodeView>, g: int) -> Seq<usize> {
    elements_of(d, g, Some(w_name("gridCol"@)))
}

/// The table's grid is degenerate and can be rebuilt: it has a grid with
/// fewer columns than the widest row spans (at least two), and a positive
/// width to split.
pub open spec fn needs_rebuild(d: Seq<NodeView>, tbl: int, src: int) -> bool {
    match grid_of(d, tbl) {
        Some(g) => {
            let cols = grid_cols(d, g as int);
            let n = real_columns(d, tbl);
            n >= 2 && cols.len() < n && content_width(d, src, cols) > 0
        },
        None => false,
    }
}

/// `d` with each of `ns` taken out of its parent, in order.
pub open spec fn detach_all(d: Seq<NodeView>, ns: Seq<usize>) -> Seq<NodeView>
    decreases ns.len(),
{
    if ns.len() == 0 {
        d
    } else {
        detached(detach_all(d, ns.drop_last()), ns.last() as int)
    }
}

/// A new element named `name`, without attributes, parent or children.
pub open spec fn fresh_element(name: Seq<char>) -> NodeView {
    NodeView { kind: KindView::Element { name: w_name(name), attrs: seq![] }, parent: None, children: seq![] }
}

/// `d` with a new `w:gridCol` for each width, appended in order, each with
/// its `w:w`.
pub open spec fn add_cols(d: Seq<NodeView>, ws: Seq<int>) -> Seq<NodeView>
    decreases ws.len(),
{
    if ws.len() == 0 {
        d
    } else {
        let d1 = add_cols(d, ws.drop_last());
        with_attr(d1.push(fresh_element("gridCol"@)), d1.len() as int, w_name("w"@), Some(decimal(ws.last() as nat)))
    }
}

/// `d` after the last `k` of the `n` nodes from `first` on were made, last
/// first, the first children of `grid`.
pub open spec fn prepend_cols(d: Seq<NodeView>, grid: int, first: int, n: int, k: nat) -> Seq<NodeView>
    decreases k,
{
    if k == 0 {
        d
    } else {
        let d1 = prepend_cols(d, grid, first, n, (k - 1) as nat);
        let c = first + n - k;
        attached(detached(d1, c), grid, 0, c)
    }
}

/// The table's width set to automatic: its `w:tblPr/w:tblW` (added in schema
/// order when missing) gets `w:w="0"` and `w:type="auto"`.
pub open spec fn with_auto_width(d: Seq<NodeView>, tbl: int) -> Seq<NodeView> {
    match child_named(d, tbl, w_name("tblPr"@)) {
        Some(pr) => {
            let (d1, tw) = match child_named(d, pr as int, w_name("tblW"@)) {
                Some(e) => (d, e as int),
                None => {
                    let d0 = d.push(fresh_element("tblW"@));
                    (
                        attached(
                            d0,
                            pr as int,
                            insert_pos(d0, d0[pr as int].children, tblpr_rank("tblW"@)),
                            d.len() as int,
                        ),
                        d.len() as int,
                    )
                },
            };
            with_attr(with_attr(d1, tw, w_name("w"@), Some("0"@)), tw, w_name("type"@), Some("auto"@))
        },
        None => d,
    }
}

/// The tree after a degenerate grid of table `tbl` is rebuilt: the old grid
/// columns taken out, as many new ones as the widest row spans put first in
/// the grid, splitting the content width, and the table width made
/// automatic; unchanged when the grid is not degenerate.
pub open spec fn rebuilt_grid(d: Seq<NodeView>, tbl: int, src: int) -> Seq<NodeView> {
    if needs_rebuild(d, tbl, src) {
        let g = grid_of(d, tbl)->0 as int;
        let cols = grid_cols(d, g);
        let n = real_columns(d, tbl);
        let d1 = detach_all(d, cols);
        let d2 = add_cols(d1, even_widths(content_width(d, src, cols), n));
        let d3 = prepend_cols(d2, g, d1.len() as int, n as int, n);
        with_auto_width(d3, tbl)
    } else {
        d
    }
}

// ── lemmas ──────────────────────────────────────────────────────────────────

proof fn lemma_span_prefix(d: Seq<NodeView>, tcs: Seq<usize>, j: int)
    requires
        0 <= j <= tcs.len(),
    ensures
        span_sum(d, tcs.take(j)) <= span_sum(d, tcs),
    decreases tcs.len() - j,
{
    if j < tcs.len() {
        lemma_span_prefix(d, tcs, j + 1);
        assert(tcs.take(j + 1).drop_last() =~= tcs.take(j));
    } else {
        assert(tcs.take(j) =~= tcs);
    }
}

proof fn lemma_widest_bound(d: Seq<NodeView>, trs: Seq<usize>)
    requires
        forall|k: int| 0 <= k < trs.len() ==> #[trigger] row_span(d, trs[k] as int) <= usize::MAX,
    ensures
        widest_row(d, trs) <= usize::MAX,
    decreases trs.len(),
{
    if trs.len() > 0 {
        assert forall|k: int| 0 <= k < trs.drop_last().len() implies #[trigger] row_span(
            d,
            trs.drop_last()[k] as int,
        ) <= usize::MAX by {
            assert(trs.drop_last()[k] == trs[k]);
        }
        lemma_widest_bound(d, trs.drop_last());
        assert(row_span(d, trs.last() as int) <= usize::MAX);
    }
}

proof fn lemma_add_cols_len(d: Seq<NodeView>, ws: Seq<int>)
    ensures
        add_cols(d, ws).len() == d.len() + ws.len(),
    decreases ws.len(),
{
    if ws.len() > 0 {
        lemma_add_cols_len(d, ws.drop_last());
    }
}

/// The even split sums to the width split.
pub proof fn lemma_even_widths_sum(width: int, n: nat)
    requires
        n >= 1,
    ensures
        seq_sum(even_widths(width, n)) == width,
{
    let each = width / (n as int);
    let ws = even_widths(width, n);
    assert forall|k: nat| k < n implies seq_sum(#[trigger] ws.take(k as int)) == each * k by {
        lemma_even_prefix(width, n, k);
    }
    assert(ws.take((n - 1) as int) =~= ws.drop_last());
    assert(seq_sum(ws.drop_last()) == each * (n - 1));
    assert(ws.last() == width - each * (n - 1));
}

proof fn lemma_even_prefix(width: int, n: nat, k: nat)
    requires
        k < n,
    ensures
        seq_sum(even_widths(width, n).take(k as int)) == (width / (n as int)) * k,
    decreases k,
{
    let ws = even_widths(width, n);
    if k > 0 {
        lemma_even_prefix(width, n, (k - 1) as nat);
        assert(ws.take(k as int).drop_last() =~= ws.take(k - 1));
        assert(ws.take(k as int).last() == width / (n as int));
        assert((width / (n as int)) * (k - 1) + width / (n as int) == (width / (n as int)) * k) by (nonlinear_arith);
    } else {
        assert(ws.take(0) =~= Seq::<int>::empty());
    }
}

// ── execution ───────────────────────────────────────────────────────────────

/// The grid columns a cell spans.
fn grid_span_of(dom: &Dom, tc: NodeId) -> (r: usize)
    requires
        dom.wf(),
    ensures
        r == grid_span(dom@, tc.0 as int),
{
    let pr = match dom.element(tc, &W::name("tcPr")) {
        Some(x) => x,
        None => {
            return 1;
        },
    };
    let gs = match dom.element(pr, &W::name("gridSpan")) {
        Some(x) => x,
        None => {
            return 1;
        },
    };
    match dom.attribute(gs, &W::name("val")) {
        Some(v) => match parse_usize_str(v) {
            Some(n) => n,
            None => 1,
        },
        None => 1,
    }
}

/// The columns spanned by the cells of a row.
fn row_span_of(dom: &Dom, tr: NodeId) -> (r: usize)
    requires
        dom.wf(),
        row_span(dom@, tr.0 as int) <= usize::MAX,
    ensures
        r == row_span(dom@, tr.0 as int),
{
    let tcs = dom.elements(tr, Some(&W::name("tc")));
    let ghost tv = ids(tcs@);
    let mut total: usize = 0;
    let mut j: usize = 0;
    assert(tv.take(0) =~= Seq::<usize>::empty());
    while j < tcs.len()
        invariant
            dom.wf(),
            tv == ids(tcs@),
            tv == elements_of(dom@, tr.0 as int, Some(w_name("tc"@))),
            span_sum(dom@, tv) <= usize::MAX,
            j <= tcs@.len(),
            total == span_sum(dom@, tv.take(j as int)),
        decreases tcs@.len() - j,
    {
        proof {
            lemma_span_prefix(dom@, tv, j + 1);
        }
        assert(tv.take(j + 1).drop_last() =~= tv.take(j as int));
        assert(tv.take(j + 1).last() == tcs@[j as int].0);
        total = total + grid_span_of(dom, tcs[j]);
        j = j + 1;
    }
    assert(tv.take(tcs@.len() as int) =~= tv);
    total
}

/// The most columns a row of the table spans.
pub fn real_column_count(dom: &Dom, tbl: NodeId) -> (r: usize)
    requires
        dom.wf(),
        spans_fit(dom@, tbl.0 as int),
    ensures
        r == real_columns(dom@, tbl.0 as int),
{
    let trs = dom.elements(tbl, Some(&W::name("tr")));
    let ghost tv = ids(trs@);
    let mut best: usize = 0;
    let mut j: usize = 0;
    assert(tv.take(0) =~= Seq::<usize>::empty());
    while j < trs.len()
        invariant
            dom.wf(),
            tv == ids(trs@),
            tv == elements_of(dom@, tbl.0 as int, Some(w_name("tr"@))),
            spans_fit(dom@, tbl.0 as int),
            j <= trs@.len(),
            best == widest_row(dom@, tv.take(j as int)),
        decreases trs@.len() - j,
    {
        assert(tv.take(j + 1).drop_last() =~= tv.take(j as int));
        assert(tv.take(j + 1).last() == trs@[j as int].0);
        assert(row_span(dom@, tv[j as int] as int) <= usize::MAX);
        let r = row_span_of(dom, trs[j]);
        if r > best {
            best = r;
        }
        j = j + 1;
    }
    assert(tv.take(trs@.len() as int) =~= tv);
    best
}

/// The `w:` attribute `local` of a node, read as an `i64`.
fn attr_i64_of(dom: &Dom, n: NodeId, local: &str) -> (r: Option<i64>)
    ensures
        match r {
            Some(x) => attr_i64(dom@, n.0 as int, local@) == Some(x as int),
            None => attr_i64(dom@, n.0 as int, local@) is None,
        },
{
    match dom.attribute(n, &W::name(local)) {
        Some(v) => parse_i64_str(v),
        None => None,
    }
}

/// The content width of the section governing `src`, when it has one.
fn section_width_of(dom: &Dom, src: NodeId) -> (r: Option<i64>)
    requires
        dom.wf(),
        match section_of(dom@, src.0 as int) {
            Some(s) => match page_geometry(dom@, s as int) {
                Some((w, l, r)) => fits_i64(w - l) && fits_i64(w - l - r),
                None => true,
            },
            None => true,
        },
    ensures
        match r {
            Some(x) => section_width(dom@, src.0 as int) == Some(x as int),
            None => section_width(dom@, src.0 as int) is None,
        },
{
    let ancs = dom.ancestors(src);
    if ancs.len() == 0 {
        return None;
    }
    let root = ancs[ancs.len() - 1];
    assert(ids(ancs@).last() == root.0);
    let secs = dom.descendants(root, Some(&W::name("sectPr")));
    if secs.len() == 0 {
        return None;
    }
    let sect = secs[0];
    assert(ids(secs@)[0] == sect.0);
    let sz = match dom.element(sect, &W::name("pgSz")) {
        Some(x) => x,
        None => {
            return None;
        },
    };
    let w = match attr_i64_of(dom, sz, "w") {
        Some(x) => x,
        None => {
            return None;
        },
    };
    let mar = match dom.element(sect, &W::name("pgMar")) {
        Some(x) => x,
        None => {
            return None;
        },
    };
    let l = match attr_i64_of(dom, mar, "left") {
        Some(x) => x,
        None => {
            return None;
        },
    };
    let r = match attr_i64_of(dom, mar, "right") {
        Some(x) => x,
        None => {
            return None;
        },
    };
    Some(w - l - r)
}

/// The widths the grid columns declare, summed.
fn declared_width_of(dom: &Dom, cols: &Vec<NodeId>) -> (r: i64)
    requires
        forall|k: int|
            0 <= k <= cols@.len() ==> #[trigger] fits_i64(declared_width(dom@, ids(cols@).take(k))),
    ensures
        r == declared_width(dom@, ids(cols@)),
{
    let ghost cv = ids(cols@);
    let mut total: i64 = 0;
    let mut j: usize = 0;
    assert(cv.take(0) =~= Seq::<usize>::empty());
    while j < cols.len()
        invariant
            cv == ids(cols@),
            forall|k: int| 0 <= k <= cols@.len() ==> #[trigger] fits_i64(declared_width(dom@, cv.take(k))),
            j <= cols@.len(),
            total == declared_width(dom@, cv.take(j as int)),
        decreases cols@.len() - j,
    {
        assert(cv.take(j + 1).drop_last() =~= cv.take(j as int));
        assert(cv.take(j + 1).last() == cols@[j as int].0);
        assert(fits_i64(declared_width(dom@, cv.take(j + 1))));
        match attr_i64_of(dom, cols[j], "w") {
            Some(x) => {
                total = total + x;
            },
            None => {},
        }
        j = j + 1;
    }
    assert(cv.take(cols@.len() as int) =~= cv);
    total
}

/// Rebuilds a degenerate grid of table `tbl`, whose source table `src_tbl`
/// locates the section: when the grid declares fewer columns than the widest
/// row spans (at least two), its columns are replaced by that many, first in
/// the grid, splitting the section's content width (or, failing a positive
/// one, the old grid's declared width) evenly, and the table's width is made
/// automatic.
pub fn rebuild_degenerate_grid(dom: &mut Dom, tbl: NodeId, src_tbl: NodeId)
    requires
        old(dom).wf(),
        spans_fit(old(dom)@, tbl.0 as int),
        real_columns(old(dom)@, tbl.0 as int) <= i64::MAX,
        match grid_of(old(dom)@, tbl.0 as int) {
            Some(g) => widths_fit(old(dom)@, src_tbl.0 as int, grid_cols(old(dom)@, g as int)),
            None => true,
        },
    ensures
        final(dom).wf(),
        final(dom)@ == rebuilt_grid(old(dom)@, tbl.0 as int, src_tbl.0 as int),
{
    let ghost d = dom@;
    let grid = match dom.element(tbl, &W::name("tblGrid")) {
        Some(g) => g,
        None => {
            return ;
        },
    };
    proof {
        lemma_select_below_selects(d, d[tbl.0 as int].children, 0, Some(w_name("tblGrid"@)));
    }
    assert(selects(d, grid.0 as int, Some(w_name("tblGrid"@))));
    assert(grid.0 < d.len());
    let cols = dom.elements(grid, Some(&W::name("gridCol")));
    let ghost cv = ids(cols@);
    assert(cv == grid_cols(d, grid.0 as int));
    let real_cols = real_column_count(dom, tbl);
    if real_cols < 2 || cols.len() >= real_cols {
        return ;
    }
    let width = match section_width_of(dom, src_tbl) {
        Some(w) => if w > 0 {
            w
        } else {
            declared_width_of(dom, &cols)
        },
        None => declared_width_of(dom, &cols),
    };
    assert(width == content_width(d, src_tbl.0 as int, cv));
    if width <= 0 {
        return ;
    }
    assert(needs_rebuild(d, tbl.0 as int, src_tbl.0 as int));
    proof {
        lemma_select_below_selects(d, d[grid.0 as int].children, 0, Some(w_name("gridCol"@)));
    }
    // Take the old columns out.
    let mut j: usize = 0;
    assert(cv.take(0) =~= Seq::<usize>::empty());
    while j < cols.len()
        invariant
            dom.wf(),
            cv == ids(cols@),
            dom@.len() == d.len(),
            j <= cols@.len(),
            forall|k: int| 0 <= k < cv.len() ==> #[trigger] selects(d, cv[k] as int, Some(w_name("gridCol"@))),
            dom@ == detach_all(d, cv.take(j as int)),
        decreases cols@.len() - j,
    {
        assert(cv.take(j + 1).drop_last() =~= cv.take(j as int));
        assert(cv.take(j + 1).last() == cols@[j as int].0);
        assert(selects(d, cv[j as int] as int, Some(w_name("gridCol"@))));
        dom.remove(cols[j]);
        j = j + 1;
    }
    assert(cv.take(cols@.len() as int) =~= cv);
    let ghost d1 = dom@;
    // Make the new columns.
    let n = real_cols as i64;
    let each = width / n;
    assert(each * (n - 1) <= width && each >= 0) by (nonlinear_arith)
        requires
            width > 0,
            n >= 2,
            each == width / n,
    ;
    let first = dom.len();
    let ghost ws = even_widths(width as int, real_cols as nat);
    let mut i: usize = 0;
    assert(ws.take(0) =~= Seq::<int>::empty());
    while i < real_cols
        invariant
            dom.wf(),
            first == d1.len(),
            n == real_cols as i64,
            n >= 2,
            width > 0,
            n as int == real_cols as int,
            each == width / n,
            each * (n - 1) <= width,
            each >= 0,
            ws == even_widths(width as int, real_cols as nat),
            i <= real_cols,
            dom@ == add_cols(d1, ws.take(i as int)),
            dom@.len() == first + i,
        decreases real_cols - i,
    {
        assert(ws.take(i + 1).drop_last() =~= ws.take(i as int));
        let w: i64 = if i + 1 == real_cols {
            width - each * (n - 1)
        } else {
            each
        };
        assert(ws.take(i + 1).last() == w as int);
        let col = dom.new_element(W::name("gridCol"));
        dom.set_attribute_value(col, &W::name("w"), Some(u64_to_decimal(w as u64).as_str()));
        assert(ws.take(i + 1).last() as nat == (w as u64) as nat);
        i = i + 1;
    }
    assert(ws.take(real_cols as int) =~= ws);
    let ghost d2 = dom@;
    proof {
        lemma_add_cols_len(d1, ws);
    }
    // Put them first in the grid, in order.
    let total = dom.len();
    let mut k: usize = 0;
    while k < real_cols
        invariant
            dom.wf(),
            dom@.len() == total,
            total == first + real_cols,
            first == d1.len(),
            grid.0 < d.len(),
            d.len() == d1.len(),
            k <= real_cols,
            dom@ == prepend_cols(d2, grid.0 as int, first as int, real_cols as int, k as nat),
        decreases real_cols - k,
    {
        let c = total - (k + 1);
        dom.add_first(grid, NodeId(c));
        k = k + 1;
    }
    // Make the table width automatic.
    let ghost d3 = dom@;
    match dom.element(tbl, &W::name("tblPr")) {
        Some(tbl_pr) => {
            proof {
                lemma_select_below_selects(d3, d3[tbl.0 as int].children, 0, Some(w_name("tblPr"@)));
            }
            assert(selects(d3, tbl_pr.0 as int, Some(w_name("tblPr"@))));
            let tblw = match dom.element(tbl_pr, &W::name("tblW")) {
                Some(e) => {
                    e
                },
                None => {
                    let e = dom.new_element(W::name("tblW"));
                    add_tblpr_child_in_order(dom, tbl_pr, e, "tblW");
                    e
                },
            };
            dom.set_attribute_value(tblw, &W::name("w"), Some("0"));
            dom.set_attribute_value(tblw, &W::name("type"), Some("auto"));
        },
        None => {},
    }
}

} // verus!

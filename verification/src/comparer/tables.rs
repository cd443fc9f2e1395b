//! The elements the reassembly recurses into, each with the property
//! children it rebuilds itself.

use vstd::prelude::*;

use crate::namespaces::{o_uri, vml_uri, w10_uri, w_name, O, VML, W, W10};
use crate::xml::{XName, XNameView};

verus! {

/// An element the reassembly recurses into, with the property children it
/// skips (they are rebuilt from the structure).
#[derive(Debug)]
pub struct RecursionInfo {
    /// The element's name.
    pub element_name: XName,
    /// The property children skipped, if any.
    pub child_property_names: Option<Vec<XName>>,
}

/// What a [`RecursionInfo`] holds.
pub struct RecursionInfoView {
    pub element_name: XNameView,
    pub child_property_names: Option<Seq<XNameView>>,
}

/// The views of a sequence of names.
pub open spec fn names_view(v: Seq<XName>) -> Seq<XNameView> {
    v.map_values(|x: XName| x@)
}

impl View for RecursionInfo {
    type V = RecursionInfoView;

    open spec fn view(&self) -> RecursionInfoView {
        RecursionInfoView {
            element_name: self.element_name@,
            child_property_names: match self.child_property_names {
                Some(v) => Some(names_view(v@)),
                None => None,
            },
        }
    }
}

/// An entry without property children.
pub open spec fn plain(n: XNameView) -> RecursionInfoView {
    RecursionInfoView { element_name: n, child_property_names: None }
}

/// An entry with property children.
pub open spec fn with_props(n: XNameView, props: Seq<XNameView>) -> RecursionInfoView {
    RecursionInfoView { element_name: n, child_property_names: Some(props) }
}

/// The recursion table, in order.
pub open spec fn recursion_table() -> Seq<RecursionInfoView> {
    seq![
        plain(w_name("del"@)),
        plain(w_name("ins"@)),
        plain(w_name("moveFrom"@)),
        plain(w_name("moveTo"@)),
        with_props(w_name("tbl"@), seq![w_name("tblPr"@), w_name("tblGrid"@), w_name("tblPrEx"@)]),
        with_props(w_name("tr"@), seq![w_name("trPr"@), w_name("tblPrEx"@)]),
        with_props(w_name("tc"@), seq![w_name("tcPr"@), w_name("tblPrEx"@)]),
        with_props(w_name("pict"@), seq![XNameView { namespace: vml_uri(), local: "shapetype"@ }]),
        plain(XNameView { namespace: vml_uri(), local: "group"@ }),
        plain(XNameView { namespace: vml_uri(), local: "shape"@ }),
        plain(XNameView { namespace: vml_uri(), local: "rect"@ }),
        plain(XNameView { namespace: vml_uri(), local: "textbox"@ }),
        plain(XNameView { namespace: o_uri(), local: "lock"@ }),
        plain(w_name("txbxContent"@)),
        plain(XNameView { namespace: w10_uri(), local: "wrap"@ }),
        with_props(w_name("sdt"@), seq![w_name("sdtPr"@), w_name("sdtEndPr"@)]),
        plain(w_name("sdtContent"@)),
        plain(w_name("hyperlink"@)),
        plain(w_name("fldSimple"@)),
        plain(XNameView { namespace: vml_uri(), local: "shapetype"@ }),
        with_props(w_name("smartTag"@), seq![w_name("smartTagPr"@)]),
        with_props(w_name("ruby"@), seq![w_name("rubyPr"@)]),
    ]
}

/// The first entry of `t` for the element named `n`.
pub open spec fn recursion_lookup(t: Seq<RecursionInfoView>, n: XNameView) -> Option<
    RecursionInfoView,
>
    decreases t.len(),
{
    if t.len() == 0 {
        None
    } else if t[0].element_name == n {
        Some(t[0])
    } else {
        recursion_lookup(t.drop_first(), n)
    }
}

/// The views of a sequence of entries.
pub open spec fn infos_view(v: Seq<RecursionInfo>) -> Seq<RecursionInfoView> {
    v.map_values(|x: RecursionInfo| x@)
}

fn plain_entry(n: XName) -> (r: RecursionInfo)
    ensures
        r@ == plain(n@),
{
    RecursionInfo { element_name: n, child_property_names: None }
}

fn props_entry(n: XName, props: Vec<XName>) -> (r: RecursionInfo)
    ensures
        r@ == with_props(n@, names_view(props@)),
{
    RecursionInfo { element_name: n, child_property_names: Some(props) }
}

fn names1(a: XName) -> (r: Vec<XName>)
    ensures
        names_view(r@) == seq![a@],
{
    let mut v = Vec::new();
    v.push(a);
    assert(names_view(v@) =~= seq![a@]);
    v
}

fn names2(a: XName, b: XName) -> (r: Vec<XName>)
    ensures
        names_view(r@) == seq![a@, b@],
{
    let mut v = Vec::new();
    v.push(a);
    v.push(b);
    assert(names_view(v@) =~= seq![a@, b@]);
    v
}

fn names3(a: XName, b: XName, c: XName) -> (r: Vec<XName>)
    ensures
        names_view(r@) == seq![a@, b@, c@],
{
    let mut v = Vec::new();
    v.push(a);
    v.push(b);
    v.push(c);
    assert(names_view(v@) =~= seq![a@, b@, c@]);
    v
}

/// The recursion table.
pub fn recursion_elements() -> (r: Vec<RecursionInfo>)
    ensures
        infos_view(r@) == recursion_table(),
{
    let mut v: Vec<RecursionInfo> = Vec::new();
    v.push(plain_entry(W::name("del")));
    v.push(plain_entry(W::name("ins")));
    v.push(plain_entry(W::name("moveFrom")));
    v.push(plain_entry(W::name("moveTo")));
    v.push(
        props_entry(W::name("tbl"), names3(W::name("tblPr"), W::name("tblGrid"), W::name("tblPrEx"))),
    );
    v.push(props_entry(W::name("tr"), names2(W::name("trPr"), W::name("tblPrEx"))));
    v.push(props_entry(W::name("tc"), names2(W::name("tcPr"), W::name("tblPrEx"))));
    v.push(props_entry(W::name("pict"), names1(VML::name("shapetype"))));
    v.push(plain_entry(VML::name("group")));
    v.push(plain_entry(VML::name("shape")));
    v.push(plain_entry(VML::name("rect")));
    v.push(plain_entry(VML::name("textbox")));
    v.push(plain_entry(O::name("lock")));
    v.push(plain_entry(W::name("txbxContent")));
    v.push(plain_entry(W10::name("wrap")));
    v.push(props_entry(W::name("sdt"), names2(W::name("sdtPr"), W::name("sdtEndPr"))));
    v.push(plain_entry(W::name("sdtContent")));
    v.push(plain_entry(W::name("hyperlink")));
    v.push(plain_entry(W::name("fldSimple")));
    v.push(plain_entry(VML::name("shapetype")));
    v.push(props_entry(W::name("smartTag"), names1(W::name("smartTagPr"))));
    v.push(props_entry(W::name("ruby"), names1(W::name("rubyPr"))));
    assert(infos_view(v@) =~= recursion_table());
    v
}

/// The recursion entry for the element named `name`, if it has one.
pub fn recursion_info(name: &XName) -> (r: Option<RecursionInfo>)
    ensures
        match r {
            Some(ri) => recursion_lookup(recursion_table(), name@) == Some(ri@),
            None => recursion_lookup(recursion_table(), name@) is None,
        },
{
    let mut table = recursion_elements();
    let ghost t = recursion_table();
    let mut i: usize = 0;
    assert(t.skip(0) =~= t);
    while i < table.len()
        invariant
            infos_view(table@) == t,
            t == recursion_table(),
            i <= table@.len(),
            recursion_lookup(t, name@) == recursion_lookup(t.skip(i as int), name@),
        decreases table@.len() - i,
    {
        assert(t.skip(i as int)[0] == table@[i as int]@);
        assert(t.skip(i as int).drop_first() =~= t.skip(i + 1));
        if table[i].element_name.same(name) {
            let ri = table.remove(i);
            return Some(ri);
        }
        i = i + 1;
    }
    assert(t.skip(i as int) =~= Seq::<RecursionInfoView>::empty());
    None
}

} // verus!

//! An arena-backed XML element tree: expanded names, attributes, text nodes,
//! parent/child links, and the document-order queries the comparison needs.
//!
//! Every node lives in one vector and is named by its index. Walks that
//! follow child or parent links go at most as many levels as the arena has
//! nodes, which on a tree (no node its own ancestor) is never a limit.

use vstd::prelude::*;

verus! {

/// Identifier of a node in a [`Dom`].
#[derive(Clone, Copy, PartialEq, Eq, Hash, Debug, Structural)]
pub struct NodeId(pub usize);

/// An expanded XML name: namespace URI and local name.
#[derive(Debug, PartialEq, Eq, Hash)]
pub struct XName {
    /// Namespace URI (empty for no namespace).
    pub namespace: String,
    /// Local name.
    pub local: String,
}

/// What an [`XName`] holds.
pub struct XNameView {
    pub namespace: Seq<char>,
    pub local: Seq<char>,
}

impl View for XName {
    type V = XNameView;

    open spec fn view(&self) -> XNameView {
        XNameView { namespace: self.namespace@, local: self.local@ }
    }
}

impl Clone for XName {
    fn clone(&self) -> (r: Self)
        ensures
            r@ == self@,
    {
        XName { namespace: self.namespace.clone(), local: self.local.clone() }
    }
}

impl XName {
    /// The name `local` in `namespace`.
    pub fn get(local: &str, namespace: &str) -> (r: XName)
        ensures
            r@ == (XNameView { namespace: namespace@, local: local@ }),
    {
        XName { namespace: String::from_str(namespace), local: String::from_str(local) }
    }

    /// The local name.
    pub fn local_name(&self) -> (r: &str)
        ensures
            r@ == self.local@,
    {
        self.local.as_str()
    }

    /// The namespace URI.
    pub fn namespace_name(&self) -> (r: &str)
        ensures
            r@ == self.namespace@,
    {
        self.namespace.as_str()
    }

    /// Whether the two names are equal.
    pub fn same(&self, other: &XName) -> (r: bool)
        ensures
            r == (self@ == other@),
    {
        crate::text::str_eq(self.local.as_str(), other.local.as_str()) && crate::text::str_eq(
            self.namespace.as_str(),
            other.namespace.as_str(),
        )
    }
}

/// An attribute of an element.
#[derive(Debug)]
pub struct Attr {
    /// Its name.
    pub name: XName,
    /// Its value.
    pub value: String,
}

/// What an [`Attr`] holds.
pub struct AttrView {
    pub name: XNameView,
    pub value: Seq<char>,
}

impl View for Attr {
    type V = AttrView;

    open spec fn view(&self) -> AttrView {
        AttrView { name: self.name@, value: self.value@ }
    }
}

/// What a node is.
#[derive(Debug)]
pub enum NodeKind {
    /// The document node, above the root element.
    Document,
    /// An element with its name and attributes, in order.
    Element { name: XName, attrs: Vec<Attr> },
    /// A text node.
    Text { value: String },
}

/// What a [`NodeKind`] holds.
pub enum KindView {
    Document,
    Element { name: XNameView, attrs: Seq<AttrView> },
    Text { value: Seq<char> },
}

/// The views of a sequence of attributes.
pub open spec fn attrs_view(a: Seq<Attr>) -> Seq<AttrView> {
    a.map_values(|x: Attr| x@)
}

impl View for NodeKind {
    type V = KindView;

    open spec fn view(&self) -> KindView {
        match self {
            NodeKind::Document => KindView::Document,
            NodeKind::Element { name, attrs } => KindView::Element {
                name: name@,
                attrs: attrs_view(attrs@),
            },
            NodeKind::Text { value } => KindView::Text { value: value@ },
        }
    }
}

/// A node of the arena: what it is, its parent and its children in order.
#[derive(Debug)]
pub struct Node {
    /// What the node is.
    pub kind: NodeKind,
    /// The parent's index.
    pub parent: Option<usize>,
    /// The children's indices, in document order.
    pub children: Vec<usize>,
}

/// What a [`Node`] holds.
pub struct NodeView {
    pub kind: KindView,
    pub parent: Option<usize>,
    pub children: Seq<usize>,
}

impl View for Node {
    type V = NodeView;

    open spec fn view(&self) -> NodeView {
        NodeView { kind: self.kind@, parent: self.parent, children: self.children@ }
    }
}

/// An XML tree (or forest) held in an arena.
#[derive(Debug)]
pub struct Dom {
    /// The nodes, indexed by [`NodeId`].
    pub nodes: Vec<Node>,
}

impl View for Dom {
    type V = Seq<NodeView>;

    open spec fn view(&self) -> Seq<NodeView> {
        self.nodes@.map_values(|n: Node| n@)
    }
}

// ── specification of the tree ──────────────────────────────────────────────

/// Every child and parent link of `d` names a node of `d`.
pub open spec fn links_ok(d: Seq<NodeView>) -> bool {
    &&& forall|i: int, j: int|
        0 <= i < d.len() && 0 <= j < d[i].children.len() ==> #[trigger] d[i].children[j] < d.len()
    &&& forall|i: int| 0 <= i < d.len() ==> (#[trigger] d[i].parent matches Some(p) ==> p < d.len())
}

/// The name of node `n`, when it is an element.
pub open spec fn name_of(d: Seq<NodeView>, n: int) -> Option<XNameView> {
    if 0 <= n < d.len() {
        match d[n].kind {
            KindView::Element { name, .. } => Some(name),
            _ => None,
        }
    } else {
        None
    }
}

/// Node `n` is an element named `name`.
pub open spec fn has_name(d: Seq<NodeView>, n: int, name: XNameView) -> bool {
    name_of(d, n) == Some(name)
}

/// Node `n` is an element, named `f` when a filter is given.
pub open spec fn selects(d: Seq<NodeView>, n: int, f: Option<XNameView>) -> bool {
    &&& name_of(d, n) is Some
    &&& (f matches Some(nm) ==> name_of(d, n) == Some(nm))
}

/// In document order, the nodes among `cs` and their descendants (down to
/// `fuel` further levels) that `f` selects.
pub open spec fn select_below(d: Seq<NodeView>, cs: Seq<usize>, fuel: nat, f: Option<
    XNameView,
>) -> Seq<usize>
    decreases fuel, cs.len(),
{
    if cs.len() == 0 {
        seq![]
    } else {
        let c = cs.last();
        select_below(d, cs.drop_last(), fuel, f) + (if selects(d, c as int, f) {
            seq![c]
        } else {
            seq![]
        }) + (if fuel == 0 || c >= d.len() {
            seq![]
        } else {
            select_below(d, d[c as int].children, (fuel - 1) as nat, f)
        })
    }
}

/// Every node `select_below` gives is one that `f` selects, so an element of
/// `d`.
pub proof fn lemma_select_below_selects(d: Seq<NodeView>, cs: Seq<usize>, fuel: nat, f: Option<
    XNameView,
>)
    ensures
        forall|k: int|
            0 <= k < select_below(d, cs, fuel, f).len() ==> selects(
                d,
                #[trigger] select_below(d, cs, fuel, f)[k] as int,
                f,
            ),
    decreases fuel, cs.len(),
{
    if cs.len() > 0 {
        let c = cs.last();
        lemma_select_below_selects(d, cs.drop_last(), fuel, f);
        let a = select_below(d, cs.drop_last(), fuel, f);
        let b: Seq<usize> = if selects(d, c as int, f) {
            seq![c]
        } else {
            seq![]
        };
        if !(fuel == 0 || c >= d.len()) {
            lemma_select_below_selects(d, d[c as int].children, (fuel - 1) as nat, f);
        }
        let e = if fuel == 0 || c >= d.len() {
            Seq::<usize>::empty()
        } else {
            select_below(d, d[c as int].children, (fuel - 1) as nat, f)
        };
        assert(select_below(d, cs, fuel, f) == a + b + e);
        assert forall|k: int| 0 <= k < (a + b + e).len() implies selects(d, #[trigger] (a + b + e)[k] as int, f) by {
            if k < a.len() {
                assert((a + b + e)[k] == a[k]);
            } else if k < a.len() + b.len() {
                assert((a + b + e)[k] == b[k - a.len()]);
            } else {
                assert((a + b + e)[k] == e[k - a.len() - b.len()]);
            }
        }
    }
}

/// The descendant elements of `n` in document order, named `f` when a filter
/// is given.
pub open spec fn descendants_of(d: Seq<NodeView>, n: int, f: Option<XNameView>) -> Seq<usize> {
    if 0 <= n < d.len() {
        select_below(d, d[n].children, d.len(), f)
    } else {
        seq![]
    }
}

/// The child elements of `n` in order, named `f` when a filter is given.
pub open spec fn elements_of(d: Seq<NodeView>, n: int, f: Option<XNameView>) -> Seq<usize> {
    if 0 <= n < d.len() {
        select_below(d, d[n].children, 0, f)
    } else {
        seq![]
    }
}

/// The text of the text nodes among `cs` and below them (down to `fuel`
/// further levels), in document order.
pub open spec fn text_below(d: Seq<NodeView>, cs: Seq<usize>, fuel: nat) -> Seq<char>
    decreases fuel, cs.len(),
{
    if cs.len() == 0 {
        seq![]
    } else {
        let c = cs.last();
        text_below(d, cs.drop_last(), fuel) + (if c < d.len() {
            match d[c as int].kind {
                KindView::Text { value } => value,
                _ => seq![],
            }
        } else {
            seq![]
        }) + (if fuel == 0 || c >= d.len() {
            seq![]
        } else {
            text_below(d, d[c as int].children, (fuel - 1) as nat)
        })
    }
}

/// The string value of `n`: its own text for a text node, else the text of
/// all text nodes below it in document order.
pub open spec fn value_of(d: Seq<NodeView>, n: int) -> Seq<char> {
    if 0 <= n < d.len() {
        match d[n].kind {
            KindView::Text { value } => value,
            _ => text_below(d, d[n].children, d.len()),
        }
    } else {
        seq![]
    }
}

/// The value of the first attribute of `attrs` named `name`.
pub open spec fn attr_lookup(attrs: Seq<AttrView>, name: XNameView) -> Option<Seq<char>>
    decreases attrs.len(),
{
    if attrs.len() == 0 {
        None
    } else if attrs[0].name == name {
        Some(attrs[0].value)
    } else {
        attr_lookup(attrs.drop_first(), name)
    }
}

/// The value of attribute `name` of node `n`.
pub open spec fn attribute_of(d: Seq<NodeView>, n: int, name: XNameView) -> Option<Seq<char>> {
    if 0 <= n < d.len() {
        match d[n].kind {
            KindView::Element { attrs, .. } => attr_lookup(attrs, name),
            _ => None,
        }
    } else {
        None
    }
}

/// The attributes of node `n` (none for a node that is not an element).
pub open spec fn attrs_of(d: Seq<NodeView>, n: int) -> Seq<AttrView> {
    if 0 <= n < d.len() {
        match d[n].kind {
            KindView::Element { attrs, .. } => attrs,
            _ => seq![],
        }
    } else {
        seq![]
    }
}

/// Index of the first attribute of `attrs` named `name`.
pub open spec fn attr_index(attrs: Seq<AttrView>, name: XNameView) -> Option<int>
    decreases attrs.len(),
{
    if attrs.len() == 0 {
        None
    } else if attrs[0].name == name {
        Some(0)
    } else {
        match attr_index(attrs.drop_first(), name) {
            Some(k) => Some(k + 1),
            None => None,
        }
    }
}

/// `attrs` after setting attribute `name` to `value`: an existing attribute
/// keeps its place and takes the value, or goes when `value` is `None`; a new
/// one is added at the end.
pub open spec fn set_attr(attrs: Seq<AttrView>, name: XNameView, value: Option<Seq<char>>) -> Seq<
    AttrView,
> {
    match attr_index(attrs, name) {
        Some(i) => match value {
            Some(v) => attrs.update(i, AttrView { name, value: v }),
            None => attrs.remove(i),
        },
        None => match value {
            Some(v) => attrs.push(AttrView { name, value: v }),
            None => attrs,
        },
    }
}

/// `d` with attribute `name` of element `n` set to `value` (removed for
/// `None`); other nodes, and a node that is not an element, are left as they
/// are.
pub open spec fn with_attr(d: Seq<NodeView>, n: int, name: XNameView, value: Option<Seq<char>>) -> Seq<
    NodeView,
> {
    if name_of(d, n) is Some {
        d.update(
            n,
            NodeView {
                kind: KindView::Element {
                    name: d[n].kind->Element_name,
                    attrs: set_attr(d[n].kind->Element_attrs, name, value),
                },
                ..d[n]
            },
        )
    } else {
        d
    }
}

/// The first index of `x` in `s`.
pub open spec fn first_index(s: Seq<usize>, x: usize) -> Option<int>
    decreases s.len(),
{
    if s.len() == 0 {
        None
    } else if s[0] == x {
        Some(0)
    } else {
        match first_index(s.drop_first(), x) {
            Some(k) => Some(k + 1),
            None => None,
        }
    }
}

/// `d` with node `c` taken out of its parent's child list.
pub open spec fn detached(d: Seq<NodeView>, c: int) -> Seq<NodeView> {
    match d[c].parent {
        Some(p) => {
            let d1 = match first_index(d[p as int].children, c as usize) {
                Some(k) => d.update(
                    p as int,
                    NodeView { children: d[p as int].children.remove(k), ..d[p as int] },
                ),
                None => d,
            };
            d1.update(c, NodeView { parent: None, ..d1[c] })
        },
        None => d,
    }
}

/// `d` with the parentless node `c` inserted as child `k` of `p`.
pub open spec fn attached(d: Seq<NodeView>, p: int, k: int, c: int) -> Seq<NodeView> {
    let d1 = d.update(p, NodeView { children: d[p].children.insert(k, c as usize), ..d[p] });
    d1.update(c, NodeView { parent: Some(p as usize), ..d1[c] })
}

proof fn lemma_first_index(s: Seq<usize>, x: usize)
    ensures
        first_index(s, x) matches Some(k) ==> 0 <= k < s.len() && s[k] == x && forall|j: int|
            0 <= j < k ==> s[j] != x,
        first_index(s, x) is None ==> forall|j: int| 0 <= j < s.len() ==> s[j] != x,
    decreases s.len(),
{
    if s.len() > 0 {
        lemma_first_index(s.drop_first(), x);
        if s[0] != x {
            assert forall|j: int| 1 <= j < s.len() implies s[j] == s.drop_first()[j - 1] by {}
        }
    }
}

proof fn lemma_attr_index(attrs: Seq<AttrView>, name: XNameView)
    ensures
        attr_index(attrs, name) matches Some(k) ==> 0 <= k < attrs.len() && attrs[k].name == name
            && attr_lookup(attrs, name) == Some(attrs[k].value),
        attr_index(attrs, name) is None ==> attr_lookup(attrs, name) is None,
    decreases attrs.len(),
{
    if attrs.len() > 0 {
        lemma_attr_index(attrs.drop_first(), name);
    }
}

proof fn lemma_attr_index_at(attrs: Seq<AttrView>, name: XNameView, k: int)
    requires
        0 <= k < attrs.len(),
        attrs[k].name == name,
        forall|j: int| 0 <= j < k ==> attrs[j].name != name,
    ensures
        attr_index(attrs, name) == Some(k),
    decreases k,
{
    if k > 0 {
        lemma_attr_index_at(attrs.drop_first(), name, k - 1);
    }
}

proof fn lemma_attr_index_none(attrs: Seq<AttrView>, name: XNameView)
    requires
        forall|j: int| 0 <= j < attrs.len() ==> attrs[j].name != name,
    ensures
        attr_index(attrs, name) is None,
    decreases attrs.len(),
{
    if attrs.len() > 0 {
        lemma_attr_index_none(attrs.drop_first(), name);
    }
}

proof fn lemma_first_index_at(s: Seq<usize>, x: usize, k: int)
    requires
        0 <= k < s.len(),
        s[k] == x,
        forall|j: int| 0 <= j < k ==> s[j] != x,
    ensures
        first_index(s, x) == Some(k),
    decreases k,
{
    if k > 0 {
        lemma_first_index_at(s.drop_first(), x, k - 1);
    }
}

proof fn lemma_first_index_none(s: Seq<usize>, x: usize)
    requires
        forall|j: int| 0 <= j < s.len() ==> s[j] != x,
    ensures
        first_index(s, x) is None,
    decreases s.len(),
{
    if s.len() > 0 {
        lemma_first_index_none(s.drop_first(), x);
    }
}

/// Where `x` first occurs in `s` (its length when it does not), from a scan
/// that stopped at `k`.
pub proof fn lemma_first_index_prefix(s: Seq<usize>, x: usize, k: int)
    requires
        0 <= k <= s.len(),
        forall|j: int| 0 <= j < k ==> s[j] != x,
        k < s.len() ==> s[k] == x,
    ensures
        match first_index(s, x) {
            Some(j) => j,
            None => s.len() as int,
        } == k,
{
    if k < s.len() {
        lemma_first_index_at(s, x, k);
    } else {
        lemma_first_index_none(s, x);
    }
}

/// The indices held by a sequence of node ids.
pub open spec fn ids(s: Seq<NodeId>) -> Seq<usize> {
    s.map_values(|x: NodeId| x.0)
}

/// The ancestors of `n`, nearest first, following at most `fuel` parent
/// links.
pub open spec fn parent_chain(d: Seq<NodeView>, n: int, fuel: nat) -> Seq<usize>
    decreases fuel,
{
    if fuel == 0 || n < 0 || n >= d.len() {
        seq![]
    } else {
        match d[n].parent {
            Some(p) => seq![p] + parent_chain(d, p as int, (fuel - 1) as nat),
            None => seq![],
        }
    }
}

/// The ancestors of `n`, nearest first: in a tree, all of them.
pub open spec fn ancestors_of(d: Seq<NodeView>, n: int) -> Seq<usize> {
    parent_chain(d, n, d.len())
}

/// The view of an optional string argument.
pub open spec fn opt_view(v: Option<&str>) -> Option<Seq<char>> {
    match v {
        Some(s) => Some(s@),
        None => None,
    }
}

/// The view of an optional name filter.
pub open spec fn filter_view(f: Option<&XName>) -> Option<XNameView> {
    match f {
        Some(x) => Some(x@),
        None => None,
    }
}

// ── laws of the tree ────────────────────────────────────────────────────────

/// Writing an attribute of an element and reading it back gives the value
/// written; every other attribute of the element, and every other node, is
/// as it was.
pub proof fn lemma_attribute_write_read(
    d: Seq<NodeView>,
    n: int,
    name: XNameView,
    v: Seq<char>,
    other: XNameView,
)
    requires
        name_of(d, n) is Some,
        other != name,
    ensures
        attribute_of(with_attr(d, n, name, Some(v)), n, name) == Some(v),
        attribute_of(with_attr(d, n, name, Some(v)), n, other) == attribute_of(d, n, other),
        with_attr(d, n, name, Some(v)).len() == d.len(),
        forall|m: int| 0 <= m < d.len() && m != n ==> #[trigger] with_attr(d, n, name, Some(v))[m] == d[m],
{
    lemma_set_attr_some(d[n].kind->Element_attrs, name, v, other);
}

/// Removing an attribute that an element holds once leaves it without that
/// attribute; every other attribute of the element is as it was.
pub proof fn lemma_attribute_remove_read(d: Seq<NodeView>, n: int, name: XNameView, other: XNameView)
    requires
        name_of(d, n) is Some,
        other != name,
        forall|i: int, j: int|
            0 <= i < attrs_of(d, n).len() && 0 <= j < attrs_of(d, n).len() && #[trigger] attrs_of(
                d,
                n,
            )[i].name == name && #[trigger] attrs_of(d, n)[j].name == name ==> i == j,
    ensures
        attribute_of(with_attr(d, n, name, None), n, name) is None,
        attribute_of(with_attr(d, n, name, None), n, other) == attribute_of(d, n, other),
{
    let attrs = d[n].kind->Element_attrs;
    assert(attrs_of(d, n) == attrs);
    lemma_attr_index(attrs, name);
    match attr_index(attrs, name) {
        Some(k) => {
            let r = attrs.remove(k);
            assert forall|i: int| 0 <= i < r.len() implies #[trigger] r[i].name != name by {
                if i < k {
                    assert(r[i] == attrs[i]);
                    if attrs[i].name == name {
                        assert(attrs_of(d, n)[i].name == name && attrs_of(d, n)[k].name == name);
                    }
                } else {
                    assert(r[i] == attrs[i + 1]);
                    if attrs[i + 1].name == name {
                        assert(attrs_of(d, n)[i + 1].name == name && attrs_of(d, n)[k].name == name);
                    }
                }
            }
            lemma_lookup_none(r, name);
            lemma_remove_lookup(attrs, k, other);
        },
        None => {},
    }
}

proof fn lemma_lookup_none(attrs: Seq<AttrView>, name: XNameView)
    requires
        forall|i: int| 0 <= i < attrs.len() ==> #[trigger] attrs[i].name != name,
    ensures
        attr_lookup(attrs, name) is None,
    decreases attrs.len(),
{
    if attrs.len() > 0 {
        assert forall|i: int| 0 <= i < attrs.drop_first().len() implies #[trigger] attrs.drop_first()[i].name
            != name by {
            assert(attrs.drop_first()[i] == attrs[i + 1]);
        }
        lemma_lookup_none(attrs.drop_first(), name);
    }
}

proof fn lemma_remove_lookup(attrs: Seq<AttrView>, k: int, other: XNameView)
    requires
        0 <= k < attrs.len(),
        attrs[k].name != other,
    ensures
        attr_lookup(attrs.remove(k), other) == attr_lookup(attrs, other),
    decreases k,
{
    if k == 0 {
        assert(attrs.remove(0) =~= attrs.drop_first());
    } else {
        lemma_remove_lookup(attrs.drop_first(), k - 1, other);
        assert(attrs.remove(k).drop_first() =~= attrs.drop_first().remove(k - 1));
        assert(attrs.remove(k)[0] == attrs[0]);
    }
}

pub proof fn lemma_set_attr_some(attrs: Seq<AttrView>, name: XNameView, v: Seq<char>, other: XNameView)
    requires
        other != name,
    ensures
        attr_lookup(set_attr(attrs, name, Some(v)), name) == Some(v),
        attr_lookup(set_attr(attrs, name, Some(v)), other) == attr_lookup(attrs, other),
    decreases attrs.len(),
{
    let new = AttrView { name, value: v };
    let r = set_attr(attrs, name, Some(v));
    if attrs.len() == 0 {
        assert(r =~= seq![new]);
        assert(r.drop_first() =~= Seq::<AttrView>::empty());
        assert(attr_lookup(r, other) == attr_lookup(r.drop_first(), other));
    } else if attrs[0].name == name {
        assert(r == attrs.update(0, new));
        assert(r.drop_first() =~= attrs.drop_first());
        assert(attr_lookup(r, other) == attr_lookup(r.drop_first(), other));
        assert(attr_lookup(attrs, other) == attr_lookup(attrs.drop_first(), other));
    } else {
        let rest = attrs.drop_first();
        lemma_set_attr_some(rest, name, v, other);
        lemma_attr_index(rest, name);
        match attr_index(rest, name) {
            Some(k) => {
                assert(attr_index(attrs, name) == Some(k + 1));
                assert(r =~= seq![attrs[0]] + set_attr(rest, name, Some(v)));
            },
            None => {
                assert(attr_index(attrs, name) is None);
                assert(r =~= seq![attrs[0]] + set_attr(rest, name, Some(v)));
            },
        }
        assert(r.drop_first() =~= set_attr(rest, name, Some(v)));
        assert(r[0] == attrs[0]);
        if attrs[0].name == other {
            assert(attr_lookup(r, other) == Some(attrs[0].value));
        } else {
            assert(attr_lookup(r, other) == attr_lookup(r.drop_first(), other));
            assert(attr_lookup(attrs, other) == attr_lookup(rest, other));
        }
    }
}

/// After `add`, the child's parent is the new parent and it is that
/// parent's last child; no other node's parent changes.
pub proof fn lemma_add_attaches(d: Seq<NodeView>, p: int, c: int)
    requires
        links_ok(d),
        0 <= p < d.len(),
        0 <= c < d.len(),
    ensures
        ({
            let d1 = detached(d, c);
            let r = attached(d1, p, d1[p].children.len() as int, c);
            &&& r[c].parent == Some(p as usize)
            &&& r[p].children.last() == c as usize
            &&& r.len() == d.len()
            &&& forall|m: int| 0 <= m < d.len() && m != c ==> #[trigger] r[m].parent == d[m].parent
        }),
{
}

// ── the arena ───────────────────────────────────────────────────────────────

impl Dom {
    /// An empty arena.
    pub fn new() -> (r: Dom)
        ensures
            r@ == Seq::<NodeView>::empty(),
    {
        let r = Dom { nodes: Vec::new() };
        assert(r@ =~= Seq::<NodeView>::empty());
        r
    }

    /// Every link names a node of the arena.
    pub open spec fn wf(&self) -> bool {
        links_ok(self@)
    }

    /// Number of nodes.
    pub fn len(&self) -> (r: usize)
        ensures
            r == self@.len(),
    {
        self.nodes.len()
    }

    fn push_node(&mut self, node: Node) -> (r: NodeId)
        requires
            old(self).wf(),
            node.parent is None,
            node.children@.len() == 0,
        ensures
            r.0 == old(self)@.len(),
            final(self)@ == old(self)@.push(node@),
            final(self).wf(),
    {
        let r = NodeId(self.nodes.len());
        let ghost n = node@;
        self.nodes.push(node);
        assert(self@ =~= old(self)@.push(n));
        r
    }

    /// A new document node, with no parent and no children.
    pub fn new_document(&mut self) -> (r: NodeId)
        requires
            old(self).wf(),
        ensures
            r.0 == old(self)@.len(),
            final(self)@ == old(self)@.push(
                NodeView { kind: KindView::Document, parent: None, children: seq![] },
            ),
            final(self).wf(),
    {
        let node = Node { kind: NodeKind::Document, parent: None, children: Vec::new() };
        assert(node@.children =~= seq![]);
        self.push_node(node)
    }

    /// A new element without attributes, parent or children.
    pub fn new_element(&mut self, name: XName) -> (r: NodeId)
        requires
            old(self).wf(),
        ensures
            r.0 == old(self)@.len(),
            final(self)@ == old(self)@.push(
                NodeView {
                    kind: KindView::Element { name: name@, attrs: seq![] },
                    parent: None,
                    children: seq![],
                },
            ),
            final(self).wf(),
    {
        let node = Node {
            kind: NodeKind::Element { name, attrs: Vec::new() },
            parent: None,
            children: Vec::new(),
        };
        assert(node@.children =~= seq![]);
        assert(node@.kind == KindView::Element { name: name@, attrs: seq![] }) by {
            assert(attrs_view(Seq::<Attr>::empty()) =~= seq![]);
        }
        self.push_node(node)
    }

    /// A new element with the attributes `attrs`, in order, without parent
    /// or children.
    pub fn new_element_with_attrs(&mut self, name: XName, attrs: Vec<Attr>) -> (r: NodeId)
        requires
            old(self).wf(),
        ensures
            r.0 == old(self)@.len(),
            final(self)@ == old(self)@.push(
                NodeView {
                    kind: KindView::Element { name: name@, attrs: attrs_view(attrs@) },
                    parent: None,
                    children: seq![],
                },
            ),
            final(self).wf(),
    {
        let node = Node { kind: NodeKind::Element { name, attrs }, parent: None, children: Vec::new() };
        assert(node@.children =~= seq![]);
        self.push_node(node)
    }

    /// A new text node holding `text`, without parent.
    pub fn new_text(&mut self, text: &str) -> (r: NodeId)
        requires
            old(self).wf(),
        ensures
            r.0 == old(self)@.len(),
            final(self)@ == old(self)@.push(
                NodeView { kind: KindView::Text { value: text@ }, parent: None, children: seq![] },
            ),
            final(self).wf(),
    {
        let node = Node {
            kind: NodeKind::Text { value: String::from_str(text) },
            parent: None,
            children: Vec::new(),
        };
        assert(node@.children =~= seq![]);
        self.push_node(node)
    }

    /// Takes node `n` out of its parent's child list.
    pub fn remove(&mut self, n: NodeId)
        requires
            old(self).wf(),
            n.0 < old(self)@.len(),
        ensures
            final(self).wf(),
            final(self)@ == detached(old(self)@, n.0 as int),
    {
        self.detach(n);
    }

    /// The node's parent.
    pub fn parent(&self, n: NodeId) -> (r: Option<NodeId>)
        requires
            n.0 < self@.len(),
        ensures
            r == match self@[n.0 as int].parent {
                Some(p) => Some(NodeId(p)),
                None => None,
            },
    {
        match self.nodes[n.0].parent {
            Some(p) => Some(NodeId(p)),
            None => None,
        }
    }

    /// The ancestors of `n`, nearest first.
    pub fn ancestors(&self, n: NodeId) -> (r: Vec<NodeId>)
        requires
            self.wf(),
        ensures
            ids(r@) == ancestors_of(self@, n.0 as int),
    {
        let len = self.nodes.len();
        let mut out: Vec<NodeId> = Vec::new();
        let mut cur = n.0;
        let mut k: usize = 0;
        assert(ids(out@) =~= Seq::<usize>::empty());
        assert(ids(out@) + parent_chain(self@, cur as int, (len - k) as nat) =~= ancestors_of(
            self@,
            n.0 as int,
        ));
        while k < len && cur < len
            invariant
                self.wf(),
                len == self@.len(),
                k <= len,
                ids(out@) + parent_chain(self@, cur as int, (len - k) as nat) == ancestors_of(
                    self@,
                    n.0 as int,
                ),
            decreases len - k,
        {
            assert(self@[cur as int] == self.nodes@[cur as int]@);
            match self.nodes[cur].parent {
                Some(p) => {
                    let ghost before = ids(out@);
                    out.push(NodeId(p));
                    assert(ids(out@) =~= before.push(p));
                    assert(parent_chain(self@, cur as int, (len - k) as nat) == seq![p]
                        + parent_chain(self@, p as int, (len - k - 1) as nat));
                    assert(ids(out@) + parent_chain(self@, p as int, (len - (k + 1)) as nat)
                        =~= before + parent_chain(self@, cur as int, (len - k) as nat));
                    cur = p;
                },
                None => {
                    assert(parent_chain(self@, cur as int, (len - k) as nat) =~= Seq::<usize>::empty());
                    assert(ids(out@) =~= ancestors_of(self@, n.0 as int));
                    return out;
                },
            }
            k = k + 1;
        }
        assert(parent_chain(self@, cur as int, (len - k) as nat) =~= Seq::<usize>::empty());
        assert(ids(out@) =~= ids(out@) + Seq::<usize>::empty());
        out
    }

    /// Number of children.
    pub fn child_count(&self, n: NodeId) -> (r: usize)
        requires
            n.0 < self@.len(),
        ensures
            r == self@[n.0 as int].children.len(),
    {
        self.nodes[n.0].children.len()
    }

    /// Child `i`.
    pub fn child_at(&self, n: NodeId, i: usize) -> (r: NodeId)
        requires
            n.0 < self@.len(),
            i < self@[n.0 as int].children.len(),
        ensures
            r.0 == self@[n.0 as int].children[i as int],
    {
        NodeId(self.nodes[n.0].children[i])
    }

    /// Whether the node is an element.
    pub fn is_element(&self, n: NodeId) -> (r: bool)
        ensures
            r == (name_of(self@, n.0 as int) is Some),
    {
        if n.0 >= self.nodes.len() {
            return false;
        }
        match &self.nodes[n.0].kind {
            NodeKind::Element { .. } => true,
            _ => false,
        }
    }

    /// Whether the node is a text node.
    pub fn is_text(&self, n: NodeId) -> (r: bool)
        ensures
            r == (n.0 < self@.len() && self@[n.0 as int].kind is Text),
    {
        if n.0 >= self.nodes.len() {
            return false;
        }
        match &self.nodes[n.0].kind {
            NodeKind::Text { .. } => true,
            _ => false,
        }
    }

    /// The element's name; `None` for other nodes.
    pub fn name(&self, n: NodeId) -> (r: Option<XName>)
        ensures
            match r {
                Some(x) => name_of(self@, n.0 as int) == Some(x@),
                None => name_of(self@, n.0 as int) is None,
            },
    {
        if n.0 >= self.nodes.len() {
            return None;
        }
        match &self.nodes[n.0].kind {
            NodeKind::Element { name, .. } => Some(name.clone()),
            _ => None,
        }
    }

    /// Whether the node is an element named `name`.
    pub fn is_named(&self, n: NodeId, name: &XName) -> (r: bool)
        ensures
            r == has_name(self@, n.0 as int, name@),
    {
        if n.0 >= self.nodes.len() {
            return false;
        }
        match &self.nodes[n.0].kind {
            NodeKind::Element { name: nm, .. } => nm.same(name),
            _ => false,
        }
    }

    /// The value of attribute `name`, if the node is an element that has it.
    pub fn attribute(&self, n: NodeId, name: &XName) -> (r: Option<&str>)
        ensures
            match r {
                Some(v) => attribute_of(self@, n.0 as int, name@) == Some(v@),
                None => attribute_of(self@, n.0 as int, name@) is None,
            },
    {
        if n.0 >= self.nodes.len() {
            return None;
        }
        match &self.nodes[n.0].kind {
            NodeKind::Element { attrs, .. } => {
                let ghost av = attrs_view(attrs@);
                let mut i: usize = 0;
                assert(av.skip(0) =~= av);
                assert(self@[n.0 as int] == self.nodes@[n.0 as int]@);
                assert(attribute_of(self@, n.0 as int, name@) == attr_lookup(av, name@));
                while i < attrs.len()
                    invariant
                        av == attrs_view(attrs@),
                        attribute_of(self@, n.0 as int, name@) == attr_lookup(av, name@),
                        i <= attrs@.len(),
                        attr_lookup(av, name@) == attr_lookup(av.skip(i as int), name@),
                    decreases attrs@.len() - i,
                {
                    assert(av.skip(i as int)[0] == attrs@[i as int]@);
                    assert(av.skip(i as int).drop_first() =~= av.skip(i + 1));
                    if attrs[i].name.same(name) {
                        return Some(attrs[i].value.as_str());
                    }
                    i = i + 1;
                }
                None
            },
            _ => None,
        }
    }

    /// Sets, replaces or (with `None`) removes attribute `name` of an element;
    /// other nodes are left as they are.
    pub fn set_attribute_value(&mut self, n: NodeId, name: &XName, value: Option<&str>)
        requires
            old(self).wf(),
        ensures
            final(self).wf(),
            final(self)@ == with_attr(old(self)@, n.0 as int, name@, opt_view(value)),
    {
        if n.0 >= self.nodes.len() {
            return ;
        }
        let ghost before = self@;
        let node = &mut self.nodes[n.0];
        match &mut node.kind {
            NodeKind::Element { attrs, .. } => {
                let ghost av = attrs_view(attrs@);
                let mut i: usize = 0;
                let mut found: Option<usize> = None;
                while found.is_none() && i < attrs.len()
                    invariant
                        av == attrs_view(attrs@),
                        i <= attrs@.len(),
                        forall|j: int| 0 <= j < i ==> av[j].name != name@,
                        found matches Some(k) ==> k < attrs@.len() && av[k as int].name == name@
                            && k == i,
                    decreases attrs@.len() - i + if found is None { 1int } else { 0int },
                {
                    if attrs[i].name.same(name) {
                        found = Some(i);
                    } else {
                        i = i + 1;
                    }
                }
                proof {
                    match found {
                        Some(k) => {
                            assert(av[k as int] == attrs@[k as int]@);
                            lemma_attr_index_at(av, name@, k as int);
                        },
                        None => {
                            lemma_attr_index_none(av, name@);
                        },
                    }
                }
                match (found, value) {
                    (Some(k), Some(v)) => {
                        let a = Attr { name: name.clone(), value: String::from_str(v) };
                        let ghost aw = a@;
                        attrs.set(k, a);
                        assert(attrs_view(attrs@) =~= av.update(k as int, aw));
                    },
                    (Some(k), None) => {
                        attrs.remove(k);
                        assert(attrs_view(attrs@) =~= av.remove(k as int));
                    },
                    (None, Some(v)) => {
                        let a = Attr { name: name.clone(), value: String::from_str(v) };
                        let ghost aw = a@;
                        attrs.push(a);
                        assert(attrs_view(attrs@) =~= av.push(aw));
                    },
                    (None, None) => {},
                }
            },
            _ => {},
        }
        assert(self@ =~= with_attr(before, n.0 as int, name@, opt_view(value)));
    }

    /// Appends a new text node holding `text` to `parent`'s children.
    pub fn add_text(&mut self, parent: NodeId, text: &str)
        requires
            old(self).wf(),
            parent.0 < old(self)@.len(),
        ensures
            final(self).wf(),
            final(self)@ == old(self)@.update(
                parent.0 as int,
                NodeView {
                    children: old(self)@[parent.0 as int].children.push(old(self)@.len() as usize),
                    ..old(self)@[parent.0 as int]
                },
            ).push(
                NodeView {
                    kind: KindView::Text { value: text@ },
                    parent: Some(parent.0),
                    children: seq![],
                },
            ),
    {
        let ghost before = self@;
        let id = self.nodes.len();
        let node = Node {
            kind: NodeKind::Text { value: String::from_str(text) },
            parent: Some(parent.0),
            children: Vec::new(),
        };
        let ghost nv = node@;
        self.nodes.push(node);
        let p = &mut self.nodes[parent.0];
        p.children.push(id);
        assert(nv.children =~= seq![]);
        assert(self@ =~= before.update(
            parent.0 as int,
            NodeView { children: before[parent.0 as int].children.push(id), ..before[parent.0 as int] },
        ).push(nv));
    }

    /// Takes node `c` out of its parent's child list.
    fn detach(&mut self, c: NodeId)
        requires
            old(self).wf(),
            c.0 < old(self)@.len(),
        ensures
            final(self).wf(),
            final(self)@ == detached(old(self)@, c.0 as int),
            final(self)@.len() == old(self)@.len(),
    {
        let ghost d = self@;
        match self.nodes[c.0].parent {
            Some(p) => {
                assert(d[c.0 as int].parent == Some(p));
                let mut k: usize = 0;
                let mut found: Option<usize> = None;
                let n = self.nodes[p].children.len();
                while found.is_none() && k < n
                    invariant
                        self@ == d,
                        links_ok(d),
                        p < d.len(),
                        n == d[p as int].children.len(),
                        k <= n,
                        forall|j: int| 0 <= j < k ==> d[p as int].children[j] != c.0,
                        found matches Some(x) ==> x < n && d[p as int].children[x as int] == c.0
                            && x == k,
                    decreases n - k + if found is None { 1int } else { 0int },
                {
                    assert(self.nodes@[p as int]@ == d[p as int]);
                    if self.nodes[p].children[k] == c.0 {
                        found = Some(k);
                    } else {
                        k = k + 1;
                    }
                }
                proof {
                    match found {
                        Some(k) => {
                            lemma_first_index_at(d[p as int].children, c.0, k as int);
                        },
                        None => {
                            lemma_first_index_none(d[p as int].children, c.0);
                        },
                    }
                }
                match found {
                    Some(k) => {
                        let node = &mut self.nodes[p];
                        node.children.remove(k);
                    },
                    None => {},
                }
                let ghost d1 = self@;
                let node = &mut self.nodes[c.0];
                node.parent = None;
                assert(self@ =~= d1.update(c.0 as int, NodeView { parent: None, ..d1[c.0 as int] }));
                assert(d1 =~= match first_index(d[p as int].children, c.0) {
                    Some(k) => d.update(
                        p as int,
                        NodeView { children: d[p as int].children.remove(k), ..d[p as int] },
                    ),
                    None => d,
                });
            },
            None => {},
        }
    }

    /// Inserts the parentless node `c` as child `k` of `p`.
    fn attach(&mut self, p: NodeId, k: usize, c: NodeId)
        requires
            old(self).wf(),
            p.0 < old(self)@.len(),
            c.0 < old(self)@.len(),
            k <= old(self)@[p.0 as int].children.len(),
        ensures
            final(self).wf(),
            final(self)@ == attached(old(self)@, p.0 as int, k as int, c.0 as int),
    {
        let ghost d = self@;
        let node = &mut self.nodes[p.0];
        node.children.insert(k, c.0);
        let ghost d1 = self@;
        assert(d1 =~= d.update(
            p.0 as int,
            NodeView { children: d[p.0 as int].children.insert(k as int, c.0), ..d[p.0 as int] },
        ));
        let node = &mut self.nodes[c.0];
        node.parent = Some(p.0);
        assert(self@ =~= d1.update(c.0 as int, NodeView { parent: Some(p.0), ..d1[c.0 as int] }));
        assert forall|i: int, j: int|
            0 <= i < self@.len() && 0 <= j < self@[i].children.len() implies #[trigger] self@[i].children[j]
            < self@.len() by {
            if i == p.0 {
                assert(self@[i].children == d[i].children.insert(k as int, c.0));
                if j < k {
                    assert(self@[i].children[j] == d[i].children[j]);
                } else if j > k {
                    assert(self@[i].children[j] == d[i].children[j - 1]);
                }
            }
        }
    }

    /// Makes `child` the last child of `parent`, taking it out of its former
    /// parent's child list first.
    pub fn add(&mut self, parent: NodeId, child: NodeId)
        requires
            old(self).wf(),
            parent.0 < old(self)@.len(),
            child.0 < old(self)@.len(),
        ensures
            final(self).wf(),
            final(self)@ == attached(
                detached(old(self)@, child.0 as int),
                parent.0 as int,
                detached(old(self)@, child.0 as int)[parent.0 as int].children.len() as int,
                child.0 as int,
            ),
    {
        self.detach(child);
        assert(self@[parent.0 as int] == self.nodes@[parent.0 as int]@);
        let k = self.nodes[parent.0].children.len();
        self.attach(parent, k, child);
    }

    /// Makes `child` the first child of `parent`, taking it out of its former
    /// parent's child list first.
    pub fn add_first(&mut self, parent: NodeId, child: NodeId)
        requires
            old(self).wf(),
            parent.0 < old(self)@.len(),
            child.0 < old(self)@.len(),
        ensures
            final(self).wf(),
            final(self)@ == attached(
                detached(old(self)@, child.0 as int),
                parent.0 as int,
                0,
                child.0 as int,
            ),
    {
        self.detach(child);
        self.attach(parent, 0, child);
    }

    /// Inserts the parentless node `child` as child `k` of `parent`.
    pub fn insert_child(&mut self, parent: NodeId, k: usize, child: NodeId)
        requires
            old(self).wf(),
            parent.0 < old(self)@.len(),
            child.0 < old(self)@.len(),
            old(self)@[child.0 as int].parent is None,
            k <= old(self)@[parent.0 as int].children.len(),
        ensures
            final(self).wf(),
            final(self)@ == attached(old(self)@, parent.0 as int, k as int, child.0 as int),
    {
        self.attach(parent, k, child);
    }

    fn selects_exec(&self, c: usize, f: Option<&XName>) -> (r: bool)
        ensures
            r == selects(self@, c as int, filter_view(f)),
    {
        match f {
            None => self.is_element(NodeId(c)),
            Some(nm) => self.is_named(NodeId(c), nm),
        }
    }

    fn collect_below(&self, cs: &Vec<usize>, fuel: usize, f: Option<&XName>, out: &mut Vec<NodeId>)
        requires
            self.wf(),
            forall|j: int| 0 <= j < cs@.len() ==> cs@[j] < self@.len(),
        ensures
            ids(final(out)@) == ids(old(out)@) + select_below(self@, cs@, fuel as nat, filter_view(f)),
        decreases fuel,
    {
        let ghost fv = filter_view(f);
        let ghost start = ids(out@);
        let mut i: usize = 0;
        assert(cs@.take(0) =~= Seq::<usize>::empty());
        assert(ids(out@) =~= start + select_below(self@, cs@.take(0), fuel as nat, fv));
        while i < cs.len()
            invariant
                self.wf(),
                forall|j: int| 0 <= j < cs@.len() ==> cs@[j] < self@.len(),
                fv == filter_view(f),
                i <= cs@.len(),
                ids(out@) == start + select_below(self@, cs@.take(i as int), fuel as nat, fv),
            decreases cs@.len() - i,
        {
            let c = cs[i];
            let ghost prev = ids(out@);
            assert(cs@.take(i + 1).drop_last() =~= cs@.take(i as int));
            if self.selects_exec(c, f) {
                out.push(NodeId(c));
                assert(ids(out@) =~= prev + seq![c]);
            } else {
                assert(ids(out@) =~= prev + Seq::<usize>::empty());
            }
            if fuel > 0 {
                let ghost mid = ids(out@);
                assert(self@[c as int] == self.nodes@[c as int]@);
                proof {
                    assert forall|j: int| 0 <= j < self.nodes@[c as int].children@.len() implies self.nodes@[c as int].children@[j] < self@.len() by {
                        assert(self@[c as int].children[j] == self.nodes@[c as int].children@[j]);
                    }
                }
                self.collect_below(&self.nodes[c].children, fuel - 1, f, out);
                assert(ids(out@) =~= start + select_below(self@, cs@.take(i + 1), fuel as nat, fv));
            } else {
                assert(ids(out@) =~= start + select_below(self@, cs@.take(i + 1), fuel as nat, fv));
            }
            i = i + 1;
        }
        assert(cs@.take(cs@.len() as int) =~= cs@);
    }

    fn children_ok(&self, n: NodeId)
        requires
            self.wf(),
            n.0 < self@.len(),
        ensures
            forall|j: int| 0 <= j < self.nodes@[n.0 as int].children@.len() ==> self.nodes@[n.0 as int].children@[j] < self@.len(),
            self.nodes@[n.0 as int].children@ == self@[n.0 as int].children,
    {
        assert(self@[n.0 as int] == self.nodes@[n.0 as int]@);
        assert forall|j: int| 0 <= j < self.nodes@[n.0 as int].children@.len() implies self.nodes@[n.0 as int].children@[j] < self@.len() by {
            assert(self@[n.0 as int].children[j] == self.nodes@[n.0 as int].children@[j]);
        }
    }

    /// The descendant elements of `n` in document order, only those named
    /// `filter` when one is given.
    pub fn descendants(&self, n: NodeId, filter: Option<&XName>) -> (r: Vec<NodeId>)
        requires
            self.wf(),
        ensures
            ids(r@) == descendants_of(self@, n.0 as int, filter_view(filter)),
    {
        let mut out: Vec<NodeId> = Vec::new();
        if n.0 >= self.nodes.len() {
            assert(ids(out@) =~= Seq::<usize>::empty());
            return out;
        }
        self.children_ok(n);
        assert(ids(out@) =~= Seq::<usize>::empty());
        self.collect_below(&self.nodes[n.0].children, self.nodes.len(), filter, &mut out);
        assert(ids(out@) =~= descendants_of(self@, n.0 as int, filter_view(filter)));
        out
    }

    /// The child elements of `n` in order, only those named `filter` when one
    /// is given.
    pub fn elements(&self, n: NodeId, filter: Option<&XName>) -> (r: Vec<NodeId>)
        requires
            self.wf(),
        ensures
            ids(r@) == elements_of(self@, n.0 as int, filter_view(filter)),
    {
        let mut out: Vec<NodeId> = Vec::new();
        if n.0 >= self.nodes.len() {
            assert(ids(out@) =~= Seq::<usize>::empty());
            return out;
        }
        self.children_ok(n);
        assert(ids(out@) =~= Seq::<usize>::empty());
        self.collect_below(&self.nodes[n.0].children, 0, filter, &mut out);
        assert(ids(out@) =~= elements_of(self@, n.0 as int, filter_view(filter)));
        out
    }

    /// The first child element of `n` named `name`.
    pub fn element(&self, n: NodeId, name: &XName) -> (r: Option<NodeId>)
        requires
            self.wf(),
        ensures
            match r {
                Some(c) => elements_of(self@, n.0 as int, Some(name@)).len() > 0 && c.0
                    == elements_of(self@, n.0 as int, Some(name@))[0],
                None => elements_of(self@, n.0 as int, Some(name@)).len() == 0,
            },
    {
        let es = self.elements(n, Some(name));
        if es.len() == 0 {
            None
        } else {
            assert(ids(es@)[0] == es@[0].0);
            Some(es[0])
        }
    }

    fn collect_text(&self, cs: &Vec<usize>, fuel: usize, out: &mut String)
        requires
            self.wf(),
            forall|j: int| 0 <= j < cs@.len() ==> cs@[j] < self@.len(),
        ensures
            final(out)@ == old(out)@ + text_below(self@, cs@, fuel as nat),
        decreases fuel,
    {
        let ghost start = out@;
        let mut i: usize = 0;
        assert(cs@.take(0) =~= Seq::<usize>::empty());
        assert(out@ =~= start + text_below(self@, cs@.take(0), fuel as nat));
        while i < cs.len()
            invariant
                self.wf(),
                forall|j: int| 0 <= j < cs@.len() ==> cs@[j] < self@.len(),
                i <= cs@.len(),
                out@ == start + text_below(self@, cs@.take(i as int), fuel as nat),
            decreases cs@.len() - i,
        {
            let c = cs[i];
            let ghost prev = out@;
            assert(cs@.take(i + 1).drop_last() =~= cs@.take(i as int));
            assert(self@[c as int] == self.nodes@[c as int]@);
            match &self.nodes[c].kind {
                NodeKind::Text { value } => {
                    out.append(value.as_str());
                },
                _ => {
                    assert(out@ =~= prev + Seq::<char>::empty());
                },
            }
            if fuel > 0 {
                self.children_ok(NodeId(c));
                self.collect_text(&self.nodes[c].children, fuel - 1, out);
                assert(out@ =~= start + text_below(self@, cs@.take(i + 1), fuel as nat));
            } else {
                assert(out@ =~= start + text_below(self@, cs@.take(i + 1), fuel as nat));
            }
            i = i + 1;
        }
        assert(cs@.take(cs@.len() as int) =~= cs@);
    }

    /// The string value of `n`: a text node's text, else the text of all text
    /// nodes below it in document order.
    pub fn value_str(&self, n: NodeId) -> (r: String)
        requires
            self.wf(),
        ensures
            r@ == value_of(self@, n.0 as int),
    {
        let mut out = String::new();
        if n.0 >= self.nodes.len() {
            return out;
        }
        assert(self@[n.0 as int] == self.nodes@[n.0 as int]@);
        match &self.nodes[n.0].kind {
            NodeKind::Text { value } => {
                return value.clone();
            },
            _ => {},
        }
        self.children_ok(n);
        self.collect_text(&self.nodes[n.0].children, self.nodes.len(), &mut out);
        assert(out@ =~= value_of(self@, n.0 as int));
        out
    }

    /// Number of attributes (zero for a node that is not an element).
    pub fn attr_count(&self, n: NodeId) -> (r: usize)
        ensures
            r == attrs_of(self@, n.0 as int).len(),
    {
        if n.0 >= self.nodes.len() {
            return 0;
        }
        assert(self@[n.0 as int] == self.nodes@[n.0 as int]@);
        match &self.nodes[n.0].kind {
            NodeKind::Element { attrs, .. } => attrs.len(),
            _ => 0,
        }
    }

    /// Attribute `i` of an element.
    pub fn attr_at(&self, n: NodeId, i: usize) -> (r: Option<&Attr>)
        ensures
            match r {
                Some(a) => i < attrs_of(self@, n.0 as int).len() && a@ == attrs_of(self@, n.0 as int)[i as int],
                None => i >= attrs_of(self@, n.0 as int).len(),
            },
    {
        if n.0 >= self.nodes.len() {
            return None;
        }
        assert(self@[n.0 as int] == self.nodes@[n.0 as int]@);
        match &self.nodes[n.0].kind {
            NodeKind::Element { attrs, .. } => {
                if i < attrs.len() {
                    Some(&attrs[i])
                } else {
                    None
                }
            },
            _ => None,
        }
    }

    /// Removes attribute `i` of an element.
    pub fn remove_attribute_at(&mut self, n: NodeId, i: usize)
        requires
            old(self).wf(),
            i < attrs_of(old(self)@, n.0 as int).len(),
        ensures
            final(self).wf(),
            final(self)@ == old(self)@.update(
                n.0 as int,
                NodeView {
                    kind: KindView::Element {
                        name: old(self)@[n.0 as int].kind->Element_name,
                        attrs: attrs_of(old(self)@, n.0 as int).remove(i as int),
                    },
                    ..old(self)@[n.0 as int]
                },
            ),
    {
        let ghost before = self@;
        assert(before[n.0 as int] == self.nodes@[n.0 as int]@);
        let node = &mut self.nodes[n.0];
        match &mut node.kind {
            NodeKind::Element { attrs, .. } => {
                let ghost av = attrs_view(attrs@);
                attrs.remove(i);
                assert(attrs_view(attrs@) =~= av.remove(i as int));
            },
            _ => {},
        }
        assert(self@ =~= before.update(
            n.0 as int,
            NodeView {
                kind: KindView::Element {
                    name: before[n.0 as int].kind->Element_name,
                    attrs: attrs_of(before, n.0 as int).remove(i as int),
                },
                ..before[n.0 as int]
            },
        ));
    }

    /// Renames an element; other nodes are left as they are.
    pub fn set_name(&mut self, n: NodeId, name: XName)
        requires
            old(self).wf(),
        ensures
            final(self).wf(),
            final(self)@ == if name_of(old(self)@, n.0 as int) is Some {
                old(self)@.update(
                    n.0 as int,
                    NodeView {
                        kind: KindView::Element {
                            name: name@,
                            attrs: old(self)@[n.0 as int].kind->Element_attrs,
                        },
                        ..old(self)@[n.0 as int]
                    },
                )
            } else {
                old(self)@
            },
    {
        if n.0 >= self.nodes.len() {
            return ;
        }
        let ghost before = self@;
        let node = &mut self.nodes[n.0];
        match &mut node.kind {
            NodeKind::Element { name: nm, .. } => {
                *nm = name;
            },
            _ => {},
        }
        assert(self@ =~= if name_of(before, n.0 as int) is Some {
            before.update(
                n.0 as int,
                NodeView {
                    kind: KindView::Element {
                        name: name@,
                        attrs: before[n.0 as int].kind->Element_attrs,
                    },
                    ..before[n.0 as int]
                },
            )
        } else {
            before
        });
    }
}

} // verus!

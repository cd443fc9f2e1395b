//! The revision list: grouping keys, move-group identifiers, preceding
//! sibling elements and the text a revision reports.

use vstd::prelude::*;

use super::atoms::{AtomModel, ComparisonUnitAtom};
use super::lcs::{atom_is_ppr, is_ppr};
use super::CorrelationStatus;
use crate::namespaces::{m_uri, w_name, M, W};
use crate::text::push_char;
use vstd::string::StringSliceAdditionalSpecFns;
use crate::xml::{
    ancestors_of, elements_of, first_index, has_name, ids, select_below, value_of, Dom, NodeId,
    NodeView, XNameView,
};

verus! {

/// The name a status is written with in a grouping key.
pub open spec fn status_name(s: CorrelationStatus) -> Seq<char> {
    match s {
        CorrelationStatus::Deleted => "Deleted"@,
        CorrelationStatus::Inserted => "Inserted"@,
        CorrelationStatus::MovedSource => "MovedSource"@,
        CorrelationStatus::MovedDestination => "MovedDestination"@,
        CorrelationStatus::FormatChanged => "FormatChanged"@,
        CorrelationStatus::Equal => "Equal"@,
        CorrelationStatus::Nil => "Nil"@,
        CorrelationStatus::Normal => "Normal"@,
        CorrelationStatus::Unknown => "Unknown"@,
        CorrelationStatus::Group => "Group"@,
    }
}

/// The name a status is written with in a grouping key.
pub fn status_key(s: CorrelationStatus) -> (r: &'static str)
    ensures
        r@ == status_name(s),
{
    match s {
        CorrelationStatus::Deleted => "Deleted",
        CorrelationStatus::Inserted => "Inserted",
        CorrelationStatus::MovedSource => "MovedSource",
        CorrelationStatus::MovedDestination => "MovedDestination",
        CorrelationStatus::FormatChanged => "FormatChanged",
        CorrelationStatus::Equal => "Equal",
        CorrelationStatus::Nil => "Nil",
        CorrelationStatus::Normal => "Normal",
        CorrelationStatus::Unknown => "Unknown",
        CorrelationStatus::Group => "Group",
    }
}

/// One step of the 32-bit FNV-1a hash: mix in byte `b`, multiply by the
/// FNV prime modulo 2^32.
pub open spec fn fnv_step(h: u32, b: u8) -> u32 {
    (((h ^ (b as u32)) as nat * 0x0100_0193nat) % 0x1_0000_0000nat) as u32
}

/// The 32-bit FNV-1a hash of `bytes`.
pub open spec fn fnv1a(bytes: Seq<u8>) -> u32
    decreases bytes.len(),
{
    if bytes.len() == 0 {
        0x811c_9dc5u32
    } else {
        fnv_step(fnv1a(bytes.drop_last()), bytes.last())
    }
}

/// The move-group id of a move name: the FNV-1a hash of its UTF-8 bytes with
/// the top bit cleared, so equal names give equal, non-negative ids.
pub fn move_group_id_from_name(name: &str) -> (r: i32)
    ensures
        r == (fnv1a(name.spec_bytes()) & 0x7FFF_FFFFu32) as i32,
        r >= 0,
{
    let bytes = name.as_bytes();
    let mut h: u32 = 0x811c_9dc5;
    let mut i: usize = 0;
    assert(bytes@.take(0) =~= Seq::<u8>::empty());
    while i < bytes.len()
        invariant
            bytes@ == name.spec_bytes(),
            i <= bytes@.len(),
            h == fnv1a(bytes@.take(i as int)),
        decreases bytes@.len() - i,
    {
        assert(bytes@.take(i + 1).drop_last() =~= bytes@.take(i as int));
        h = h ^ (bytes[i] as u32);
        h = h.wrapping_mul(0x0100_0193);
        i = i + 1;
    }
    assert(bytes@.take(bytes@.len() as int) =~= bytes@);
    let masked = h & 0x7FFF_FFFF;
    assert(h & 0x7FFF_FFFFu32 <= 0x7FFF_FFFFu32) by (bit_vector);
    masked as i32
}

/// Equal move names give equal move-group ids: the id depends on the name's
/// bytes alone.
pub proof fn lemma_move_group_id_linkage(a: &str, b: &str)
    requires
        a@ == b@,
    ensures
        (fnv1a(a.spec_bytes()) & 0x7FFF_FFFFu32) as i32 == (fnv1a(b.spec_bytes()) & 0x7FFF_FFFFu32) as i32,
{
}

/// Content kinds whose revisions carry no text: `m:oMath`, `m:oMathPara`
/// and `w:drawing`.
pub open spec fn rev_without_text(d: Seq<NodeView>, e: int) -> bool {
    ||| has_name(d, e, XNameView { namespace: m_uri(), local: "oMath"@ })
    ||| has_name(d, e, XNameView { namespace: m_uri(), local: "oMathPara"@ })
    ||| has_name(d, e, w_name("drawing"@))
}

/// Whether revisions of this content carry no text.
pub fn is_rev_element_with_no_text(dom: &Dom, e: NodeId) -> (r: bool)
    ensures
        r == rev_without_text(dom@, e.0 as int),
{
    dom.is_named(e, &M::name("oMath")) || dom.is_named(e, &M::name("oMathPara")) || dom.is_named(
        e,
        &W::name("drawing"),
    )
}

/// The element siblings before `e`: the elements among its parent's children
/// that precede its first occurrence there.
pub open spec fn before_self(d: Seq<NodeView>, e: int) -> Seq<usize> {
    if 0 <= e < d.len() {
        match d[e].parent {
            Some(p) => {
                let ch = d[p as int].children;
                let k = match first_index(ch, e as usize) {
                    Some(k) => k,
                    None => ch.len() as int,
                };
                select_below(d, ch.take(k), 0, None)
            },
            None => seq![],
        }
    } else {
        seq![]
    }
}

/// The element siblings preceding `e` in document order.
pub fn elements_before_self(dom: &Dom, e: NodeId) -> (r: Vec<NodeId>)
    requires
        dom.wf(),
    ensures
        ids(r@) == before_self(dom@, e.0 as int),
{
    let mut out: Vec<NodeId> = Vec::new();
    if e.0 >= dom.len() {
        assert(ids(out@) =~= Seq::<usize>::empty());
        return out;
    }
    let parent = match dom.parent(e) {
        Some(p) => p,
        None => {
            assert(ids(out@) =~= Seq::<usize>::empty());
            return out;
        },
    };
    let ghost ch = dom@[parent.0 as int].children;
    let n = dom.child_count(parent);
    let mut k: usize = 0;
    assert(ch.take(0) =~= Seq::<usize>::empty());
    assert(ids(out@) =~= select_below(dom@, ch.take(0), 0, None));
    while k < n
        invariant
            dom.wf(),
            parent.0 < dom@.len(),
            ch == dom@[parent.0 as int].children,
            n == ch.len(),
            k <= n,
            forall|j: int| 0 <= j < k ==> ch[j] != e.0,
            ids(out@) == select_below(dom@, ch.take(k as int), 0, None),
        ensures
            k <= n,
            forall|j: int| 0 <= j < k ==> ch[j] != e.0,
            k < n ==> ch[k as int] == e.0,
            ids(out@) == select_below(dom@, ch.take(k as int), 0, None),
        decreases n - k,
    {
        let c = dom.child_at(parent, k);
        if c.0 == e.0 {
            break;
        }
        assert(ch.take(k + 1).drop_last() =~= ch.take(k as int));
        let ghost prev = ids(out@);
        if dom.is_element(c) {
            out.push(c);
            assert(ids(out@) =~= prev + seq![c.0] + Seq::<usize>::empty());
        } else {
            assert(ids(out@) =~= prev + Seq::<usize>::empty() + Seq::<usize>::empty());
        }
        k = k + 1;
    }
    proof {
        crate::xml::lemma_first_index_prefix(ch, e.0, k as int);
    }
    out
}

/// The text of a run of atoms: a newline for each paragraph mark, else the
/// string value of the atom's content element.
pub open spec fn atoms_text(d: Seq<NodeView>, atoms: Seq<AtomModel>) -> Seq<char>
    decreases atoms.len(),
{
    if atoms.len() == 0 {
        seq![]
    } else {
        atoms_text(d, atoms.drop_last()) + if is_ppr(d, atoms.last()) {
            seq!['\n']
        } else {
            value_of(d, atoms.last().content_element.0 as int)
        }
    }
}

/// The atoms of a keyed group.
pub open spec fn group_atoms(group: Seq<(String, ComparisonUnitAtom)>) -> Seq<AtomModel> {
    group.map_values(|x: (String, ComparisonUnitAtom)| x.1@)
}

/// The text a revision group reports: `None` when its first atom is content
/// that carries no text, else the text of its atoms.
pub fn group_text(dom: &Dom, group: &[(String, ComparisonUnitAtom)]) -> (r: Option<String>)
    requires
        dom.wf(),
        group@.len() > 0,
    ensures
        match r {
            Some(s) => !rev_without_text(dom@, group@[0].1.content_element.0 as int) && s@
                == atoms_text(dom@, group_atoms(group@)),
            None => rev_without_text(dom@, group@[0].1.content_element.0 as int),
        },
{
    if is_rev_element_with_no_text(dom, group[0].1.content_element) {
        return None;
    }
    let ghost ga = group_atoms(group@);
    let mut s = String::new();
    let mut k: usize = 0;
    assert(ga.take(0) =~= Seq::<AtomModel>::empty());
    while k < group.len()
        invariant
            dom.wf(),
            ga == group_atoms(group@),
            k <= group@.len(),
            s@ == atoms_text(dom@, ga.take(k as int)),
        decreases group@.len() - k,
    {
        assert(ga.take(k + 1).drop_last() =~= ga.take(k as int));
        assert(ga[k as int] == group@[k as int].1@);
        let a = &group[k].1;
        if atom_is_ppr(dom, a) {
            push_char(&mut s, '\n');
        } else {
            let v = dom.value_str(a.content_element);
            s.append(v.as_str());
        }
        k = k + 1;
    }
    assert(ga.take(group@.len() as int) =~= ga);
    Some(s)
}

/// The first of `ns` named `name`.
pub open spec fn first_named(d: Seq<NodeView>, ns: Seq<usize>, name: XNameView) -> Option<usize>
    decreases ns.len(),
{
    if ns.len() == 0 {
        None
    } else if has_name(d, ns[0] as int, name) {
        Some(ns[0])
    } else {
        first_named(d, ns.drop_first(), name)
    }
}

/// The string values of `ns`, laid end to end.
pub open spec fn values_of(d: Seq<NodeView>, ns: Seq<usize>) -> Seq<char>
    decreases ns.len(),
{
    if ns.len() == 0 {
        seq![]
    } else {
        values_of(d, ns.drop_last()) + value_of(d, ns.last() as int)
    }
}

/// The text of the direct `w:t` children of the nearest `w:r` above `n`;
/// empty when no run encloses it.
pub open spec fn ancestor_run_text(d: Seq<NodeView>, n: int) -> Seq<char> {
    match first_named(d, ancestors_of(d, n), w_name("r"@)) {
        Some(r) => values_of(d, elements_of(d, r as int, Some(w_name("t"@)))),
        None => seq![],
    }
}

/// The text of the direct `w:t` children of the nearest run above
/// `rpr_change`; empty when no run encloses it.
pub fn get_text_from_ancestor_run(dom: &Dom, rpr_change: NodeId) -> (r: String)
    requires
        dom.wf(),
    ensures
        r@ == ancestor_run_text(dom@, rpr_change.0 as int),
{
    let ancs = dom.ancestors(rpr_change);
    let ghost av = ids(ancs@);
    let r_name = W::r();
    let mut k: usize = 0;
    assert(av.skip(0) =~= av);
    while k < ancs.len() && !dom.is_named(ancs[k], &r_name)
        invariant
            av == ids(ancs@),
            r_name@ == w_name("r"@),
            k <= ancs@.len(),
            first_named(dom@, av, w_name("r"@)) == first_named(dom@, av.skip(k as int), w_name("r"@)),
        decreases ancs@.len() - k,
    {
        assert(av.skip(k as int)[0] == ancs@[k as int].0);
        assert(av.skip(k as int).drop_first() =~= av.skip(k + 1));
        k = k + 1;
    }
    let found: Option<NodeId> = if k < ancs.len() {
        assert(av.skip(k as int)[0] == ancs@[k as int].0);
        Some(ancs[k])
    } else {
        None
    };
    let mut out = String::new();
    match found {
        Some(run) => {
            let ts = dom.elements(run, Some(&W::t()));
            let ghost tv = ids(ts@);
            let mut j: usize = 0;
            assert(tv.take(0) =~= Seq::<usize>::empty());
            while j < ts.len()
                invariant
                    dom.wf(),
                    tv == ids(ts@),
                    j <= ts@.len(),
                    out@ == values_of(dom@, tv.take(j as int)),
                decreases ts@.len() - j,
            {
                assert(tv.take(j + 1).drop_last() =~= tv.take(j as int));
                assert(tv.take(j + 1).last() == ts@[j as int].0);
                let v = dom.value_str(ts[j]);
                out.append(v.as_str());
                j = j + 1;
            }
            assert(tv.take(ts@.len() as int) =~= tv);
        },
        None => {
            assert(av.skip(k as int) =~= Seq::<usize>::empty());
        },
    }
    out
}

} // verus!

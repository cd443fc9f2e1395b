//! The XML namespaces of WordprocessingML documents and of the comparison's
//! own annotations, with constructors for the names used by the engine.

use vstd::prelude::*;

use crate::xml::{XName, XNameView};

verus! {

/// The WordprocessingML main namespace URI.
pub open spec fn w_uri() -> Seq<char> {
    "http://schemas.openxmlformats.org/wordprocessingml/2006/main"@
}

/// The namespace URI of the comparison's own annotations.
pub open spec fn pt_uri() -> Seq<char> {
    "http://powertools.codeplex.com/2011"@
}

/// The Word 2010 namespace URI.
pub open spec fn w14_uri() -> Seq<char> {
    "http://schemas.microsoft.com/office/word/2010/wordml"@
}

/// The Office math namespace URI.
pub open spec fn m_uri() -> Seq<char> {
    "http://schemas.openxmlformats.org/officeDocument/2006/math"@
}

/// The VML namespace URI.
pub open spec fn vml_uri() -> Seq<char> {
    "urn:schemas-microsoft-com:vml"@
}

/// The Office namespace URI.
pub open spec fn o_uri() -> Seq<char> {
    "urn:schemas-microsoft-com:office:office"@
}

/// The Word 2000 namespace URI.
pub open spec fn w10_uri() -> Seq<char> {
    "urn:schemas-microsoft-com:office:word"@
}

/// The DrawingML main namespace URI.
pub open spec fn a_uri() -> Seq<char> {
    "http://schemas.openxmlformats.org/drawingml/2006/main"@
}

/// The Office 2010 drawing namespace URI.
pub open spec fn a14_uri() -> Seq<char> {
    "http://schemas.microsoft.com/office/drawing/2010/main"@
}

/// The DrawingML chart namespace URI.
pub open spec fn c_uri() -> Seq<char> {
    "http://schemas.openxmlformats.org/drawingml/2006/chart"@
}

/// The DrawingML diagram namespace URI.
pub open spec fn dgm_uri() -> Seq<char> {
    "http://schemas.openxmlformats.org/drawingml/2006/diagram"@
}

/// The relationships namespace URI.
pub open spec fn r_uri() -> Seq<char> {
    "http://schemas.openxmlformats.org/officeDocument/2006/relationships"@
}

/// The Word 2006 extensions namespace URI.
pub open spec fn wne_uri() -> Seq<char> {
    "http://schemas.microsoft.com/office/word/2006/wordml"@
}

/// The WordprocessingML drawing namespace URI.
pub open spec fn wp_uri() -> Seq<char> {
    "http://schemas.openxmlformats.org/drawingml/2006/wordprocessingDrawing"@
}

/// The Word 2010 drawing namespace URI.
pub open spec fn wp14_uri() -> Seq<char> {
    "http://schemas.microsoft.com/office/word/2010/wordprocessingDrawing"@
}

/// The namespace URI of prefixed namespace declarations.
pub open spec fn xmlns_uri() -> Seq<char> {
    "http://www.w3.org/2000/xmlns/"@
}

/// The name `local` in the WordprocessingML namespace.
pub open spec fn w_name(local: Seq<char>) -> XNameView {
    XNameView { namespace: w_uri(), local }
}

/// The name `local` in the annotation namespace.
pub open spec fn pt_name(local: Seq<char>) -> XNameView {
    XNameView { namespace: pt_uri(), local }
}

/// WordprocessingML names.
pub struct W;

impl W {
    /// The namespace URI.
    pub fn uri() -> (r: &'static str)
        ensures
            r@ == w_uri(),
    {
        "http://schemas.openxmlformats.org/wordprocessingml/2006/main"
    }

    /// The name `local` in this namespace.
    pub fn name(local: &str) -> (r: XName)
        ensures
            r@ == w_name(local@),
    {
        XName::get(local, W::uri())
    }

    /// `w:t`.
    pub fn t() -> (r: XName)
        ensures
            r@ == w_name("t"@),
    {
        W::name("t")
    }

    /// `w:r`.
    pub fn r() -> (r: XName)
        ensures
            r@ == w_name("r"@),
    {
        W::name("r")
    }

    /// `w:p`.
    pub fn p() -> (r: XName)
        ensures
            r@ == w_name("p"@),
    {
        W::name("p")
    }

    /// `w:pPr`.
    pub fn p_pr() -> (r: XName)
        ensures
            r@ == w_name("pPr"@),
    {
        W::name("pPr")
    }
}

/// Names of the comparison's own annotations.
pub struct PT;

impl PT {
    /// The namespace URI.
    pub fn uri() -> (r: &'static str)
        ensures
            r@ == pt_uri(),
    {
        "http://powertools.codeplex.com/2011"
    }

    /// The name `local` in this namespace.
    pub fn name(local: &str) -> (r: XName)
        ensures
            r@ == pt_name(local@),
    {
        XName::get(local, PT::uri())
    }

    /// `pt:Unid`, the stable identity of an element across the comparison.
    pub fn unid() -> (r: XName)
        ensures
            r@ == pt_name("Unid"@),
    {
        PT::name("Unid")
    }
}

/// Word 2010 names.
pub struct W14;

impl W14 {
    /// The namespace URI.
    pub fn uri() -> (r: &'static str)
        ensures
            r@ == w14_uri(),
    {
        "http://schemas.microsoft.com/office/word/2010/wordml"
    }
}

/// Office math names.
pub struct M;

impl M {
    /// The namespace URI.
    pub fn uri() -> (r: &'static str)
        ensures
            r@ == m_uri(),
    {
        "http://schemas.openxmlformats.org/officeDocument/2006/math"
    }

    /// The name `local` in this namespace.
    pub fn name(local: &str) -> (r: XName)
        ensures
            r@ == (XNameView { namespace: m_uri(), local: local@ }),
    {
        XName::get(local, M::uri())
    }
}

/// VML names.
pub struct VML;

impl VML {
    /// The name `local` in this namespace.
    pub fn name(local: &str) -> (r: XName)
        ensures
            r@ == (XNameView { namespace: vml_uri(), local: local@ }),
    {
        XName::get(local, "urn:schemas-microsoft-com:vml")
    }
}

/// Office names.
pub struct O;

impl O {
    /// The name `local` in this namespace.
    pub fn name(local: &str) -> (r: XName)
        ensures
            r@ == (XNameView { namespace: o_uri(), local: local@ }),
    {
        XName::get(local, "urn:schemas-microsoft-com:office:office")
    }
}

/// Word 2000 names.
pub struct W10;

impl W10 {
    /// The name `local` in this namespace.
    pub fn name(local: &str) -> (r: XName)
        ensures
            r@ == (XNameView { namespace: w10_uri(), local: local@ }),
    {
        XName::get(local, "urn:schemas-microsoft-com:office:word")
    }
}

} // verus!

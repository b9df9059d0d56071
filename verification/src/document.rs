//! The anchor-based document skeleton: the elements an anchor buffer can
//! hold, and the roots a document hands to the parsing and section-graph
//! machinery.
use vstd::prelude::*;

use crate::anchor_node::{arena_wf, AnchorArena, AnchorNode};
use crate::section_anchors::RootSectionNode;

verus! {

/// The mathematical shape of a buffer element: a nested anchor by handle,
/// or a section with the shapes of its children.
pub enum ElemV {
    Anchor(int),
    Sec(Seq<ElemV>),
}

pub open spec fn gelem_view(e: Element) -> ElemV
    decreases e,
{
    match e {
        Element::AnchorNode(a) => ElemV::Anchor(a.id as int),
        Element::Section(s) => ElemV::Sec(gelems_view(s.children@)),
    }
}

pub open spec fn gelems_view(s: Seq<Element>) -> Seq<ElemV>
    decreases s,
{
    if s.len() == 0 {
        Seq::<ElemV>::empty()
    } else {
        seq![gelem_view(s[0])] + gelems_view(s.drop_first())
    }
}

/// The shape of a buffer has one entry per element.
pub broadcast proof fn lemma_gelems_view_len(s: Seq<Element>)
    ensures
        (#[trigger] gelems_view(s)).len() == s.len(),
    decreases s,
{
    if s.len() > 0 {
        lemma_gelems_view_len(s.drop_first());
    }
}

/// The shape of a buffer is taken element by element.
pub broadcast proof fn lemma_gelems_view_index(s: Seq<Element>, i: int)
    requires
        0 <= i < s.len(),
    ensures
        #[trigger] gelems_view(s)[i] == gelem_view(s[i]),
    decreases s,
{
    lemma_gelems_view_len(s.drop_first());
    if i > 0 {
        lemma_gelems_view_index(s.drop_first(), i - 1);
        assert(s.drop_first()[i - 1] == s[i]);
    }
}



/// An element of an anchor buffer: a nested anchor standing for content
/// produced out of band, or a section of parsed content.
#[derive(Debug)]
pub enum Element {
    AnchorNode(AnchorNode),
    Section(Section),
}

/// A section of the skeleton: its children in order.
#[derive(Debug)]
pub struct Section {
    pub children: Vec<Element>,
}

/// A document under construction: the anchor its content is spliced into,
/// and the root of its section graph.
#[derive(Debug)]
pub struct Document {
    pub root_anchor: AnchorNode,
    pub root_section: RootSectionNode,
}

impl Document {
    /// A fresh document, with a fresh root anchor in the given arena and an
    /// empty section root.
    pub fn new(arena: &mut AnchorArena) -> (r: Document)
        requires
            arena_wf(*old(arena)),
        ensures
            arena_wf(*final(arena)),
            r.root_anchor.id as int == old(arena).nodes@.len(),
            final(arena).nodes@.len() == old(arena).nodes@.len() + 1,
            r.root_section.children@.len() == 0,
    {
        Document { root_anchor: AnchorNode::new(arena), root_section: RootSectionNode::new() }
    }
}

} // verus!

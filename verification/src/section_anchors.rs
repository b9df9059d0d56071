//! The section graph: nodes addressed by handle into an arena, so a child
//! section can be created under any open node while other holders keep
//! their handles.
use vstd::prelude::*;

use crate::anchor_node::AnchorNode;

verus! {

/// One node of the section graph.
#[derive(Debug)]
pub struct SectionNode {
    pub parent: SectionEntry,
    pub children: Vec<SectionEntry>,
    pub level: u8,
}

/// The root of the section graph: its top-level entries in order.
#[derive(Debug)]
pub struct RootSectionNode {
    pub children: Vec<SectionEntry>,
}

/// An entry of the graph: the root node, an inner node, or an anchor
/// standing for sections produced out of band. Node entries are handles
/// into a [`SectionArena`].
#[derive(Clone, Copy, Debug)]
pub enum SectionEntry {
    Root(usize),
    Node(usize),
    Anchor(AnchorNode),
}

/// The arena holding every section node.
pub struct SectionArena {
    pub nodes: Vec<SectionNode>,
}

impl SectionArena {
    pub fn new() -> (r: SectionArena)
        ensures
            r.nodes@.len() == 0,
    {
        SectionArena { nodes: Vec::new() }
    }
}

impl RootSectionNode {
    pub fn new() -> (r: Self)
        ensures
            r.children@.len() == 0,
    {
        RootSectionNode { children: Vec::new() }
    }
}

impl SectionEntry {
    /// The nesting level of the node an entry stands for; the root and an
    /// anchor stand at level zero.
    pub fn get_level(&self, arena: &SectionArena) -> (r: u8)
        ensures
            r == spec_entry_level(*self, *arena),
    {
        match self {
            SectionEntry::Node(node) => {
                if *node < arena.nodes.len() {
                    arena.nodes[*node].level
                } else {
                    0
                }
            },
            _ => 0,
        }
    }

    /// Creates a child node under this entry and returns its handle; under
    /// an anchor no node is created.
    pub fn create_child(&self, arena: &mut SectionArena) -> (r: Option<usize>)
        requires
            self matches SectionEntry::Node(n) ==> (n as int) < old(arena).nodes@.len(),
            self matches SectionEntry::Root(n) ==> (n as int) < old(arena).nodes@.len(),
        ensures
            self is Anchor ==> r is None && *final(arena) == *old(arena),
            !(self is Anchor) ==> ({
                let p = spec_entry_handle(*self);
                let id = old(arena).nodes@.len() as int;
                &&& r == Some(old(arena).nodes@.len() as usize)
                &&& final(arena).nodes@.len() == old(arena).nodes@.len() + 1
                &&& final(arena).nodes@[id].parent == *self
                &&& final(arena).nodes@[id].level == spec_entry_level(*self, *old(arena))
                &&& final(arena).nodes@[id].children@.len() == 0
                &&& final(arena).nodes@[p].parent == old(arena).nodes@[p].parent
                &&& final(arena).nodes@[p].level == old(arena).nodes@[p].level
                &&& final(arena).nodes@[p].children@ == old(
                    arena,
                ).nodes@[p].children@.push(SectionEntry::Node(old(arena).nodes@.len() as usize))
                &&& forall|j: int|
                    0 <= j < old(arena).nodes@.len() && j != p ==> final(arena).nodes@[j] == old(
                        arena,
                    ).nodes@[j]
            }),
    {
        match self {
            SectionEntry::Node(n) => {
                let id = arena.nodes.len();
                let node = SectionNode::new(arena, SectionEntry::Node(*n));
                arena.nodes.push(node);
                let parent = *n;
                if parent < arena.nodes.len() {
                    let slot = &mut arena.nodes[parent];
                    slot.children.push(SectionEntry::Node(id));
                }
                Some(id)
            },
            SectionEntry::Root(r) => {
                let id = arena.nodes.len();
                let node = SectionNode::new(arena, SectionEntry::Root(*r));
                arena.nodes.push(node);
                let parent = *r;
                if parent < arena.nodes.len() {
                    let slot = &mut arena.nodes[parent];
                    slot.children.push(SectionEntry::Node(id));
                }
                Some(id)
            },
            SectionEntry::Anchor(_) => None,
        }
    }
}


/// The node a root or inner entry stands for; an anchor has none.
pub open spec fn spec_entry_handle(e: SectionEntry) -> int {
    match e {
        SectionEntry::Node(n) => n as int,
        SectionEntry::Root(n) => n as int,
        SectionEntry::Anchor(_) => -1,
    }
}

/// The level an entry stands at: a node's recorded level, zero otherwise.
pub open spec fn spec_entry_level(e: SectionEntry, arena: SectionArena) -> u8 {
    match e {
        SectionEntry::Node(n) => {
            if (n as int) < arena.nodes@.len() {
                arena.nodes@[n as int].level
            } else {
                0
            }
        },
        _ => 0,
    }
}

impl SectionNode {
    /// A fresh node under `parent`, inheriting its level.
    pub fn new(arena: &SectionArena, parent: SectionEntry) -> (r: Self)
        ensures
            r.parent == parent,
            r.level == spec_entry_level(parent, *arena),
            r.children@.len() == 0,
    {
        let level = parent.get_level(arena);
        SectionNode { level, parent, children: Vec::new() }
    }
}

} // verus!

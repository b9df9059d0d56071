//! Structural postprocessing: re-nesting flatly collected sections by
//! heading level, and inlining resolved imports at their position while
//! merging their registries.
use vstd::prelude::*;

use crate::elements::{
    block_view, blocks_view, doc_view, lemma_blocks_view_index, lemma_blocks_view_len, line_view,
    meta_entries, sec_view, toc_item_view, toc_items_view, BibEntry, Block, BlockV, Document,
    DocV, Import, ImportAnchor, InlineMetadata, Line, LineV, List, ListItem, Placeholder,
    Section, TocItemV,
};

verus! {

broadcast use lemma_blocks_view_len, lemma_blocks_view_index, crate::elements::lemma_toc_items_view_len, crate::elements::lemma_toc_items_view_index;

/// The heading level of a section shape; any other shape counts as level
/// minus one, which no heading has.
pub open spec fn bsec_size(b: BlockV) -> int {
    match b {
        BlockV::Section { header, .. } => header.size as int,
        _ => -1,
    }
}

/// The weight of a block shape: one for the block itself, plus the weight
/// of a section's children or of a resolved import's content.
pub open spec fn bv_weight(b: BlockV) -> nat
    decreases b,
{
    match b {
        BlockV::Section { children, .. } => 1 + bvs_weight(children),
        BlockV::Import { doc, .. } => {
            match doc {
                Some(d) => 1 + bvs_weight(d.children),
                None => 1,
            }
        },
        BlockV::Leaf(_) => 1,
    }
}

pub open spec fn bvs_weight(s: Seq<BlockV>) -> nat
    decreases s,
{
    if s.len() == 0 {
        0
    } else {
        bv_weight(s[0]) + bvs_weight(s.drop_first())
    }
}

pub proof fn lemma_bvs_weight_concat(a: Seq<BlockV>, b: Seq<BlockV>)
    ensures
        bvs_weight(a + b) == bvs_weight(a) + bvs_weight(b),
    decreases a.len(),
{
    if a.len() == 0 {
        assert(a + b =~= b);
    } else {
        assert((a + b).drop_first() =~= a.drop_first() + b);
        assert((a + b)[0] == a[0]);
        lemma_bvs_weight_concat(a.drop_first(), b);
    }
}

pub proof fn lemma_bvs_weight_elem(s: Seq<BlockV>, i: int)
    requires
        0 <= i < s.len(),
    ensures
        bv_weight(s[i]) <= bvs_weight(s),
    decreases s.len(),
{
    if i > 0 {
        assert(s.drop_first()[i - 1] == s[i]);
        lemma_bvs_weight_elem(s.drop_first(), i - 1);
    }
}

/// The position of the last section among a run of blocks, if any: the
/// deepest currently open child.
pub open spec fn last_section_idx(children: Seq<BlockV>) -> Option<int>
    decreases children.len(),
{
    if children.len() == 0 {
        None
    } else if children.last() is Section {
        Some(children.len() - 1)
    } else {
        last_section_idx(children.drop_last())
    }
}

pub proof fn lemma_last_section_idx(children: Seq<BlockV>)
    ensures
        last_section_idx(children) matches Some(i) ==> 0 <= i < children.len() && children[i]
            is Section,
    decreases children.len(),
{
    if children.len() > 0 && !(children.last() is Section) {
        lemma_last_section_idx(children.drop_last());
    }
}

/// Pushing a block into a section shape.
pub open spec fn sec_push(o: BlockV, b: BlockV) -> BlockV {
    match o {
        BlockV::Section { header, metadata, children } => BlockV::Section {
            header,
            metadata,
            children: children.push(b),
        },
        other => other,
    }
}

/// Where a child section lands in a parent: a heading exactly one level
/// deeper becomes a direct child; otherwise it is handed to the deepest
/// currently open child section of smaller level, or, failing that, becomes
/// a direct child after all.
pub open spec fn spec_add_section(parent: BlockV, child: BlockV) -> BlockV
    decreases parent,
{
    match parent {
        BlockV::Section { header, metadata, children } => {
            if bsec_size(child) == header.size + 1 {
                BlockV::Section { header, metadata, children: children.push(child) }
            } else {
                match last_section_idx(children) {
                    Some(i) => {
                        if 0 <= i < children.len() && bsec_size(children[i]) < bsec_size(child) {
                            BlockV::Section {
                                header,
                                metadata,
                                children: children.update(
                                    i,
                                    spec_add_section(children[i], child),
                                ),
                            }
                        } else {
                            BlockV::Section { header, metadata, children: children.push(child) }
                        }
                    },
                    None => BlockV::Section { header, metadata, children: children.push(child) },
                }
            }
        },
        other => other,
    }
}

/// One pass over the flat top-level blocks, from the front: the fold that
/// [`Document::postprocess_imports`] computes. `done` holds finished
/// blocks, `open` the most recent top-level section still collecting
/// content, `tail` blocks that follow the open section at the top level,
/// and `ph`/`bib` the registries being merged.
pub open spec fn pp_fold(
    queue: Seq<BlockV>,
    done: Seq<BlockV>,
    open: Option<BlockV>,
    tail: Seq<BlockV>,
    ph: Seq<Placeholder>,
    bib: Seq<BibEntry>,
) -> (Seq<BlockV>, Seq<Placeholder>, Seq<BibEntry>)
    decreases bvs_weight(queue), queue.len(),
        via pp_fold_decreases
{
    if queue.len() == 0 {
        (
            done + (match open {
                Some(o) => seq![o],
                None => Seq::<BlockV>::empty(),
            }) + tail,
            ph,
            bib,
        )
    } else {
        let b = queue[0];
        let rest = queue.drop_first();
        match b {
            BlockV::Section { .. } => {
                if open matches Some(o) && bsec_size(b) > bsec_size(o) {
                    pp_fold(rest, done, Some(spec_add_section(open->Some_0, b)), tail, ph, bib)
                } else {
                    pp_fold(
                        rest,
                        done + (match open {
                            Some(o) => seq![o],
                            None => Seq::<BlockV>::empty(),
                        }) + tail,
                        Some(b),
                        Seq::<BlockV>::empty(),
                        ph,
                        bib,
                    )
                }
            },
            BlockV::Import { path, doc } => {
                match doc {
                    Some(d) => pp_fold(
                        d.children + rest,
                        done,
                        open,
                        tail,
                        ph + d.placeholders,
                        bib + d.bib,
                    ),
                    None => {
                        if open is Some {
                            pp_fold(rest, done, open, tail.push(b), ph, bib)
                        } else {
                            pp_fold(rest, done.push(b), open, tail, ph, bib)
                        }
                    },
                }
            },
            BlockV::Leaf(_) => {
                match open {
                    Some(o) => pp_fold(rest, done, Some(sec_push(o, b)), tail, ph, bib),
                    None => pp_fold(rest, done.push(b), open, tail, ph, bib),
                }
            },
        }
    }
}


#[via_fn]
proof fn pp_fold_decreases(
    queue: Seq<BlockV>,
    done: Seq<BlockV>,
    open: Option<BlockV>,
    tail: Seq<BlockV>,
    ph: Seq<Placeholder>,
    bib: Seq<BibEntry>,
) {
    if queue.len() > 0 {
        let rest = queue.drop_first();
        assert(queue =~= seq![queue[0]] + rest);
        lemma_bvs_weight_concat(seq![queue[0]], rest);
        assert(seq![queue[0]].drop_first() =~= Seq::<BlockV>::empty());
        assert(bvs_weight(seq![queue[0]]) == bv_weight(queue[0]));
        match queue[0] {
            BlockV::Import { doc, .. } => {
                match doc {
                    Some(d) => {
                        lemma_bvs_weight_concat(d.children, rest);
                    },
                    None => {},
                }
            },
            _ => {},
        }
    }
}

/// A vector of blocks in reverse order.
fn reversed(v: Vec<Block>) -> (r: Vec<Block>)
    ensures
        r@ == v@.reverse(),
{
    let mut v = v;
    let mut r: Vec<Block> = Vec::new();
    let ghost orig = v@;
    loop
        invariant
            r@.len() + v@.len() == orig.len(),
            v@ == orig.subrange(0, v@.len() as int),
            forall|i: int| 0 <= i < r@.len() ==> r@[i] == orig[orig.len() - 1 - i],
        ensures
            v@.len() == 0,
            r@.len() == orig.len(),
            forall|i: int| 0 <= i < r@.len() ==> r@[i] == orig[orig.len() - 1 - i],
        decreases v@.len(),
    {
        match v.pop() {
            None => {
                break ;
            },
            Some(b) => {
                proof {
                    assert(v@ =~= orig.subrange(0, v@.len() as int));
                }
                r.push(b);
            },
        }
    }
    proof {
        assert(r@ =~= orig.reverse());
    }
    r
}

impl Section {
    /// Adds a child section: directly when its heading is exactly one level
    /// deeper, and otherwise through the deepest currently open child
    /// section of smaller level, so a section's level never decreases while
    /// the enclosing section descends.
    #[verifier::rlimit(100)]
    pub fn add_section(&mut self, section: Section)
        ensures
            sec_view(*final(self)) == spec_add_section(sec_view(*old(self)), sec_view(section)),
        decreases bv_weight(sec_view(*self)),
    {
        let ghost pv = sec_view(*old(self));
        let ghost cv = sec_view(section);
        let ghost children0 = blocks_view(old(self).elements@);
        if self.header.size < 255 && section.header.size == self.header.size + 1 {
            self.elements.push(Block::Section(section));
            proof {
                assert(blocks_view(final(self).elements@) =~= children0.push(cv));
            }
            return ;
        }
        proof {
            lemma_last_section_idx(children0);
        }
        let mut scratch: Vec<Block> = Vec::new();
        let mut found: Option<Section> = None;
        loop
            invariant_except_break
                found is None,
            invariant
                self.header == old(self).header,
                self.metadata == old(self).metadata,
                children0 == blocks_view(old(self).elements@),
                found is None ==> blocks_view(self.elements@ + scratch@.reverse())
                    == children0,
                found is None ==> last_section_idx(children0) == last_section_idx(
                    blocks_view(self.elements@),
                ),
                forall|i: int| 0 <= i < scratch@.len() ==> !(#[trigger] block_view(scratch@[i])
                    is Section),
            ensures
                self.header == old(self).header,
                self.metadata == old(self).metadata,
                found is None ==> blocks_view(self.elements@ + scratch@.reverse()) == children0
                    && last_section_idx(children0) is None,
                found matches Some(f) ==> {
                    &&& last_section_idx(children0) == Some(self.elements@.len() as int)
                    &&& 0 <= self.elements@.len() < children0.len()
                    &&& children0[self.elements@.len() as int] == sec_view(f)
                    &&& blocks_view(self.elements@ + seq![Block::Section(f)]
                        + scratch@.reverse()) == children0
                },
            decreases self.elements@.len(),
        {
            let ghost head_elems = self.elements@;
            match self.elements.pop() {
                None => {
                    proof {
                        assert(blocks_view(self.elements@) =~= Seq::<BlockV>::empty());
                        assert(last_section_idx(Seq::<BlockV>::empty()) is None);
                    }
                    break ;
                },
                Some(e) => {
                    let ghost ev = e;
                    let ghost before = self.elements@.push(e);
                    let ghost scr0 = scratch@;
                    proof {
                        assert(before =~= head_elems);
                        assert(before.drop_last() =~= self.elements@);
                        assert(blocks_view(before).last() == block_view(e));
                        assert(blocks_view(before).drop_last() =~= blocks_view(self.elements@));
                    }
                    match e {
                        Block::Section(t) => {
                            proof {
                                assert(blocks_view(before).last() is Section);
                                assert(last_section_idx(blocks_view(before)) == Some(
                                    blocks_view(before).len() - 1,
                                ));
                                assert(sec_view(t) == block_view(Block::Section(t)));
                                assert(self.elements@ + seq![Block::Section(t)]
                                    + scratch@.reverse() =~= before + scratch@.reverse());
                                assert(children0[self.elements@.len() as int] == blocks_view(
                                    before + scratch@.reverse(),
                                )[self.elements@.len() as int]);
                            }
                            found = Some(t);
                            break ;
                        },
                        other => {
                            proof {
                                assert(!(blocks_view(before).last() is Section));
                                assert(blocks_view(before).len() > 0);
                                assert(last_section_idx(blocks_view(before))
                                    == last_section_idx(blocks_view(before).drop_last()));
                                assert(blocks_view(before).drop_last() == blocks_view(
                                    self.elements@,
                                ));
                                assert(last_section_idx(blocks_view(before))
                                    == last_section_idx(blocks_view(self.elements@)));
                                assert(last_section_idx(children0) == last_section_idx(
                                    blocks_view(self.elements@),
                                ));
                            }
                            scratch.push(other);
                            proof {
                                assert(scratch@.last() == ev);
                                assert(!(block_view(ev) is Section));
                                assert(scratch@.reverse() =~= seq![ev] + scr0.reverse());
                                assert(self.elements@ + scratch@.reverse() =~= before
                                    + scr0.reverse());
                                assert(blocks_view(self.elements@ + scratch@.reverse())
                                    == blocks_view(before + scr0.reverse()));
                                assert forall|i: int|
                                    0 <= i < scratch@.len() implies !(#[trigger] block_view(
                                    scratch@[i],
                                ) is Section) by {
                                    if i < scr0.len() {
                                        assert(scratch@[i] == scr0[i]);
                                    } else {
                                        assert(scratch@[i] == ev);
                                    }
                                }
                            }
                        },
                    }
                },
            }
        }
        match found {
            Some(target) => {
                let ghost i = self.elements@.len() as int;
                let attach = target.header.size < section.header.size;
                if attach {
                    let mut target = target;
                    proof {
                        lemma_bvs_weight_elem(children0, i);
                        assert(bv_weight(sec_view(target)) <= bvs_weight(children0));
                        assert(bv_weight(pv) == 1 + bvs_weight(children0));
                    }
                    target.add_section(section);
                    self.elements.push(Block::Section(target));
                    restore_scratch(&mut self.elements, &mut scratch);
                    proof {
                        assert(blocks_view(self.elements@) =~= children0.update(
                            i,
                            spec_add_section(children0[i], cv),
                        ));
                    }
                } else {
                    self.elements.push(Block::Section(target));
                    restore_scratch(&mut self.elements, &mut scratch);
                    self.elements.push(Block::Section(section));
                    proof {
                        assert(blocks_view(self.elements@) =~= children0.push(cv));
                    }
                }
            },
            None => {
                restore_scratch(&mut self.elements, &mut scratch);
                self.elements.push(Block::Section(section));
                proof {
                    assert(blocks_view(self.elements@) =~= children0.push(cv));
                }
            },
        }
    }
}

/// Pushes the scratch stack back, restoring the order it was popped from.
fn restore_scratch(elements: &mut Vec<Block>, scratch: &mut Vec<Block>)
    ensures
        final(elements)@ == old(elements)@ + old(scratch)@.reverse(),
        final(scratch)@.len() == 0,
{
    let ghost e0 = elements@;
    let ghost s0 = scratch@;
    loop
        invariant
            elements@ + scratch@.reverse() == e0 + s0.reverse(),
            elements@.len() >= e0.len(),
        ensures
            scratch@.len() == 0,
            elements@ + scratch@.reverse() == e0 + s0.reverse(),
        decreases scratch@.len(),
    {
        match scratch.pop() {
            None => {
                break ;
            },
            Some(b) => {
                let ghost sbefore = scratch@.push(b);
                elements.push(b);
                proof {
                    assert(sbefore.reverse() =~= seq![b] + scratch@.reverse());
                    assert(elements@ + scratch@.reverse() =~= e0 + s0.reverse());
                }
            },
        }
    }
    proof {
        assert(elements@ =~= elements@ + scratch@.reverse());
    }
}

impl Document {
    /// Processes section and import blocks in one scan: a section of deeper
    /// level than the open one nests into it; a shallower one closes it; a
    /// non-section block joins the open section; a resolved import is
    /// spliced into the scan at its position, its placeholders and
    /// bibliography merged into this document; an unresolved import is kept
    /// for a later pass.
    pub fn postprocess_imports(&mut self)
        ensures
            ({
                let folded = pp_fold(
                    blocks_view(old(self).elements@),
                    Seq::<BlockV>::empty(),
                    None,
                    Seq::<BlockV>::empty(),
                    old(self).placeholders@,
                    old(self).bibliography.entries@,
                );
                &&& blocks_view(final(self).elements@) == folded.0
                &&& final(self).placeholders@ == folded.1
                &&& final(self).bibliography.entries@ == folded.2
            }),
            final(self).is_root == old(self).is_root,
            final(self).path == old(self).path,
            final(self).config == old(self).config,
    {
        let ghost goal = pp_fold(
            blocks_view(old(self).elements@),
            Seq::<BlockV>::empty(),
            None,
            Seq::<BlockV>::empty(),
            old(self).placeholders@,
            old(self).bibliography.entries@,
        );
        let mut elements: Vec<Block> = Vec::new();
        core::mem::swap(&mut self.elements, &mut elements);
        let mut queue = reversed(elements);
        let mut done: Vec<Block> = Vec::new();
        let mut open: Option<Section> = None;
        let mut tail: Vec<Block> = Vec::new();
        proof {
            assert(queue@.reverse() =~= old(self).elements@);
        }
        loop
            invariant
                pp_fold(
                    blocks_view(queue@.reverse()),
                    blocks_view(done@),
                    match open {
                        Some(o) => Some(sec_view(o)),
                        None => None,
                    },
                    blocks_view(tail@),
                    self.placeholders@,
                    self.bibliography.entries@,
                ) == goal,
                self.is_root == old(self).is_root,
                self.path == old(self).path,
                self.config == old(self).config,
                self.elements@.len() == 0,
            ensures
                queue@.len() == 0,
                pp_fold(
                    Seq::<BlockV>::empty(),
                    blocks_view(done@),
                    match open {
                        Some(o) => Some(sec_view(o)),
                        None => None,
                    },
                    blocks_view(tail@),
                    self.placeholders@,
                    self.bibliography.entries@,
                ) == goal,
                self.is_root == old(self).is_root,
                self.path == old(self).path,
                self.config == old(self).config,
                self.elements@.len() == 0,
            decreases bvs_weight(blocks_view(queue@.reverse())), queue@.len(),
        {
            let ghost qv = blocks_view(queue@.reverse());
            match queue.pop() {
                None => {
                    proof {
                        assert(queue@.reverse() =~= Seq::<Block>::empty());
                        assert(blocks_view(queue@.reverse()) =~= Seq::<BlockV>::empty());
                    }
                    break ;
                },
                Some(element) => {
                    proof {
                        let qb = queue@.push(element);
                        assert(qb.reverse()[0] == element);
                        assert(qb.reverse().drop_first() =~= queue@.reverse());
                        assert(qv[0] == block_view(element));
                        assert(qv.drop_first() =~= blocks_view(queue@.reverse()));
                        lemma_bvs_weight_concat(seq![qv[0]], qv.drop_first());
                        assert(seq![qv[0]] + qv.drop_first() =~= qv);
                    }
                    proof {
                        assert(bv_weight(qv[0]) >= 1);
                    }
                    let ghost done0 = blocks_view(done@);
                    let ghost tail0 = blocks_view(tail@);
                    match element {
                        Block::Section(sec) => {
                            proof {
                                assert(qv[0] == sec_view(sec));
                                assert(bsec_size(qv[0]) == sec.header.size);
                            }
                            let attach = match &open {
                                Some(o) => sec.header.size > o.header.size,
                                None => false,
                            };
                            if attach {
                                match open.take() {
                                    Some(mut o) => {
                                        let ghost om = sec_view(o);
                                        proof {
                                            assert(bsec_size(om) == o.header.size);
                                        }
                                        o.add_section(sec);
                                        proof {
                                            assert(sec_view(o) == spec_add_section(
                                                om,
                                                qv[0],
                                            ));
                                        }
                                        open = Some(o);
                                    },
                                    None => {
                                        proof {
                                            assert(false);
                                        }
                                    },
                                }
                            } else {
                                match open.take() {
                                    Some(o) => {
                                        done.push(Block::Section(o));
                                        done.append(&mut tail);
                                        proof {
                                            assert(blocks_view(done@) =~= done0 + seq![
                                                sec_view(o),
                                            ] + tail0);
                                        }
                                    },
                                    None => {
                                        done.append(&mut tail);
                                        proof {
                                            assert(blocks_view(done@) =~= done0 + Seq::<
                                                BlockV,
                                            >::empty() + tail0);
                                        }
                                    },
                                }
                                open = Some(sec);
                                proof {
                                    assert(blocks_view(tail@) =~= Seq::<BlockV>::empty());
                                }
                            }
                        },
                        Block::Import(imp) => {
                            proof {
                                assert(qv[0] == block_view(Block::Import(imp)));
                            }
                            let Import { path, anchor } = imp;
                            match anchor.document {
                                Some(boxed) => {
                                    let mut d = *boxed;
                                    let ghost dv = doc_view(d);
                                    proof {
                                        assert(qv[0] matches BlockV::Import { doc, .. } && doc
                                            == Some(dv));
                                        assert(dv.children == blocks_view(d.elements@));
                                        assert(bv_weight(qv[0]) == 1 + bvs_weight(dv.children));
                                    }
                                    self.placeholders.append(&mut d.placeholders);
                                    self.bibliography.combine(&mut d.bibliography);
                                    let ghost q0 = queue@;
                                    let mut rev = reversed(d.elements);
                                    queue.append(&mut rev);
                                    proof {
                                        assert(queue@.reverse() =~= d.elements@
                                            + q0.reverse());
                                        assert(blocks_view(d.elements@ + q0.reverse())
                                            =~= blocks_view(d.elements@) + blocks_view(
                                            q0.reverse(),
                                        ));
                                        lemma_bvs_weight_concat(
                                            dv.children,
                                            blocks_view(q0.reverse()),
                                        );
                                    }
                                },
                                None => {
                                    let kept = Block::Import(
                                        Import { path, anchor: ImportAnchor { document: None } },
                                    );
                                    proof {
                                        assert(block_view(kept) == qv[0]);
                                    }
                                    if open.is_some() {
                                        tail.push(kept);
                                        proof {
                                            assert(blocks_view(tail@) =~= tail0.push(qv[0]));
                                        }
                                    } else {
                                        done.push(kept);
                                        proof {
                                            assert(blocks_view(done@) =~= done0.push(qv[0]));
                                        }
                                    }
                                },
                            }
                        },
                        other => {
                            proof {
                                assert(qv[0] == block_view(other));
                                assert(block_view(other) is Leaf);
                            }
                            match &mut open {
                                Some(o) => {
                                    let ghost om = sec_view(*o);
                                    let ghost oelems = o.elements@;
                                    o.add_element(other);
                                    proof {
                                        assert(blocks_view(o.elements@) =~= blocks_view(
                                            oelems,
                                        ).push(qv[0]));
                                        assert(sec_view(*o) == sec_push(om, qv[0]));
                                    }
                                },
                                None => {
                                    done.push(other);
                                    proof {
                                        assert(blocks_view(done@) =~= done0.push(qv[0]));
                                    }
                                },
                            }
                        },
                    }
                },
            }
        }
        match open {
            Some(o) => {
                done.push(Block::Section(o));
                done.append(&mut tail);
            },
            None => {
                done.append(&mut tail);
            },
        }
        core::mem::swap(&mut self.elements, &mut done);
    }

    /// Runs the structural passes. Reference resolution — placeholder
    /// substitution and bibliography entry data, root only — is done by a
    /// collaborator outside this crate, after every import task has joined.
    pub fn post_process(&mut self)
        ensures
            ({
                let folded = pp_fold(
                    blocks_view(old(self).elements@),
                    Seq::<BlockV>::empty(),
                    None,
                    Seq::<BlockV>::empty(),
                    old(self).placeholders@,
                    old(self).bibliography.entries@,
                );
                &&& blocks_view(final(self).elements@) == folded.0
                &&& final(self).placeholders@ == folded.1
                &&& final(self).bibliography.entries@ == folded.2
            }),
            final(self).is_root == old(self).is_root,
    {
        self.postprocess_imports();
    }
}


/// All-leaf runs pass through the fold unchanged, in order.
pub proof fn lemma_pp_fold_leaves(
    queue: Seq<BlockV>,
    done: Seq<BlockV>,
    ph: Seq<Placeholder>,
    bib: Seq<BibEntry>,
)
    requires
        forall|m: int| 0 <= m < queue.len() ==> (#[trigger] queue[m]) is Leaf,
    ensures
        pp_fold(queue, done, None, Seq::<BlockV>::empty(), ph, bib) == (done + queue, ph, bib),
    decreases queue.len(),
{
    if queue.len() == 0 {
        assert(done + queue =~= done + (match None::<BlockV> {
            Some(o) => seq![o],
            None => Seq::<BlockV>::empty(),
        }) + Seq::<BlockV>::empty());
    } else {
        assert(queue[0] is Leaf);
        assert(forall|m: int|
            0 <= m < queue.drop_first().len() ==> queue.drop_first()[m] == queue[m + 1]);
        lemma_pp_fold_leaves(queue.drop_first(), done.push(queue[0]), ph, bib);
        assert(done.push(queue[0]) + queue.drop_first() =~= done + queue);
    }
}

/// Order preservation across import flattening: with an import at position
/// `k` among otherwise plain top-level blocks, and plain content resolved
/// for it, the blocks before `k` and after the import keep their relative
/// order, the spliced content appears exactly at `k` in its own produced
/// order, and the import's registries are appended to the document's.
pub proof fn lemma_pp_fold_splice(
    queue: Seq<BlockV>,
    done: Seq<BlockV>,
    k: int,
    d: DocV,
    ph: Seq<Placeholder>,
    bib: Seq<BibEntry>,
)
    requires
        0 <= k < queue.len(),
        forall|m: int| 0 <= m < queue.len() && m != k ==> (#[trigger] queue[m]) is Leaf,
        queue[k] matches BlockV::Import { doc, .. } && doc == Some(d),
        forall|m: int| 0 <= m < d.children.len() ==> (#[trigger] d.children[m]) is Leaf,
    ensures
        pp_fold(queue, done, None, Seq::<BlockV>::empty(), ph, bib) == (
            done + queue.subrange(0, k) + d.children + queue.subrange(
                k + 1,
                queue.len() as int,
            ),
            ph + d.placeholders,
            bib + d.bib,
        ),
    decreases k,
{
    if k == 0 {
        let rest = queue.drop_first();
        assert(forall|m: int| 0 <= m < rest.len() ==> rest[m] == queue[m + 1]);
        assert(forall|m: int|
            0 <= m < (d.children + rest).len() ==> ((#[trigger] (d.children + rest)[m])
                is Leaf));
        lemma_pp_fold_leaves(d.children + rest, done, ph + d.placeholders, bib + d.bib);
        assert(done + (d.children + rest) =~= done + queue.subrange(0, 0) + d.children
            + queue.subrange(1, queue.len() as int));
    } else {
        assert(queue[0] is Leaf);
        let rest = queue.drop_first();
        assert(forall|m: int| 0 <= m < rest.len() ==> rest[m] == queue[m + 1]);
        lemma_pp_fold_splice(rest, done.push(queue[0]), k - 1, d, ph, bib);
        assert(rest.subrange(0, k - 1) =~= queue.subrange(1, k));
        assert(rest.subrange(k, rest.len() as int) =~= queue.subrange(
            k + 1,
            queue.len() as int,
        ));
        assert(done.push(queue[0]) + queue.subrange(1, k) =~= done + queue.subrange(0, k));
    }
}


/// Whether metadata carries the key that hides a section from the table of
/// contents.
pub open spec fn hidden_meta(m: Option<InlineMetadata>) -> bool {
    match m {
        Some(x) => meta_entries(x.data@).contains("toc-hidden"@),
        None => false,
    }
}

/// The table-of-contents entry of a section shape.
pub open spec fn toc_entry(header: crate::elements::Header, children: Seq<TocItemV>) -> TocItemV {
    TocItemV {
        line: LineV::Anchor(Box::new(line_view(header.line)), header.anchor@),
        children,
    }
}

/// The table-of-contents items of child sections alone.
pub open spec fn toc_secs(children: Seq<BlockV>) -> Seq<TocItemV>
    decreases bvs_weight(children),
        via toc_secs_decreases
{
    if children.len() == 0 {
        Seq::<TocItemV>::empty()
    } else {
        (match children[0] {
            BlockV::Section { header, metadata, children: cs } => {
                if hidden_meta(metadata) {
                    Seq::<TocItemV>::empty()
                } else {
                    seq![toc_entry(header, toc_secs(cs))]
                }
            },
            _ => Seq::<TocItemV>::empty(),
        }) + toc_secs(children.drop_first())
    }
}

#[via_fn]
proof fn toc_secs_decreases(children: Seq<BlockV>) {
    if children.len() > 0 {
        assert(children =~= seq![children[0]] + children.drop_first());
        lemma_bvs_weight_concat(seq![children[0]], children.drop_first());
        assert(seq![children[0]].drop_first() =~= Seq::<BlockV>::empty());
        assert(bvs_weight(seq![children[0]]) == bv_weight(children[0]));
        assert(bv_weight(children[0]) >= 1);
    }
}

/// The table-of-contents items of a run of top-level blocks: sections that
/// do not hide themselves, and the entries of resolved imports merged at
/// the import's position.
pub open spec fn toc_blocks(children: Seq<BlockV>) -> Seq<TocItemV>
    decreases bvs_weight(children),
        via toc_blocks_decreases
{
    if children.len() == 0 {
        Seq::<TocItemV>::empty()
    } else {
        (match children[0] {
            BlockV::Section { header, metadata, children: cs } => {
                if hidden_meta(metadata) {
                    Seq::<TocItemV>::empty()
                } else {
                    seq![toc_entry(header, toc_secs(cs))]
                }
            },
            BlockV::Import { doc, .. } => {
                match doc {
                    Some(d) => toc_blocks(d.children),
                    None => Seq::<TocItemV>::empty(),
                }
            },
            _ => Seq::<TocItemV>::empty(),
        }) + toc_blocks(children.drop_first())
    }
}

#[via_fn]
proof fn toc_blocks_decreases(children: Seq<BlockV>) {
    if children.len() > 0 {
        assert(children =~= seq![children[0]] + children.drop_first());
        lemma_bvs_weight_concat(seq![children[0]], children.drop_first());
        assert(seq![children[0]].drop_first() =~= Seq::<BlockV>::empty());
        assert(bvs_weight(seq![children[0]]) == bv_weight(children[0]));
        assert(bv_weight(children[0]) >= 1);
    }
}

impl Document {
    /// Builds the table of contents: one item per section that does not
    /// hide itself, its children the sections below it, and the entries of
    /// a resolved import's document merged at the import's position.
    pub fn create_toc(&self, ordered: bool) -> (r: List)
        ensures
            r.ordered == ordered,
            toc_items_view(r.items@) == toc_blocks(blocks_view(self.elements@)),
        decreases bvs_weight(blocks_view(self.elements@)), 1int,
    {
        let ghost bv = blocks_view(self.elements@);
        let mut list = List::new();
        list.ordered = ordered;
        let n = self.elements.len();
        let mut i: usize = 0;
        proof {
            assert(bv.skip(0) =~= bv);
        }
        while i < n
            invariant
                n == self.elements@.len(),
                bv == blocks_view(self.elements@),
                i <= n,
                list.ordered == ordered,
                toc_items_view(list.items@) + toc_blocks(bv.skip(i as int)) == toc_blocks(bv),
            decreases n - i,
        {
            let ghost items0 = list.items@;
            proof {
                lemma_bvs_weight_elem(bv, i as int);
                assert(bv.skip(i as int)[0] == bv[i as int]);
                assert(bv.skip(i as int).drop_first() =~= bv.skip(i as int + 1));
                assert(bv[i as int] == block_view(self.elements@[i as int]));
            }
            match &self.elements[i] {
                Block::Section(sec) => {
                    if !sec.get_hide_in_toc() {
                        let mut item = ListItem::new(
                            Line::Anchor(sec.header.get_anchor()),
                            1,
                            ordered,
                        );
                        proof {
                            assert(bv[i as int] matches BlockV::Section { children, .. }
                                && children == blocks_view(sec.elements@));
                        }
                        let mut sub = sec.get_toc_list(ordered);
                        let ghost subv = sub.items@;
                        item.children.append(&mut sub.items);
                        proof {
                            assert(item.children@ =~= subv);
                            assert(toc_item_view(item) == toc_entry(
                                sec.header,
                                toc_secs(blocks_view(sec.elements@)),
                            ));
                        }
                        list.add_item(item);
                        proof {
                            assert(toc_items_view(list.items@) =~= toc_items_view(items0)
                                + seq![toc_item_view(item)]);
                        }
                    } else {
                        proof {
                            assert(hidden_meta(match bv[i as int] {
                                BlockV::Section { metadata, .. } => metadata,
                                _ => None,
                            }));
                        }
                    }
                },
                Block::Import(imp) => {
                    match &imp.anchor.document {
                        Some(doc) => {
                            proof {
                                assert(bv[i as int] matches BlockV::Import { doc: dv, .. }
                                    && dv == Some(doc_view(*(*doc))));
                            }
                            let mut sub = doc.create_toc(ordered);
                            proof {
                                assert(toc_items_view(list.items@ + sub.items@)
                                    =~= toc_items_view(list.items@) + toc_items_view(
                                    sub.items@,
                                ));
                            }
                            list.items.append(&mut sub.items);
                        },
                        None => {},
                    }
                },
                _ => {},
            }
            i += 1;
        }
        proof {
            assert(bv.skip(n as int).len() == 0);
            assert(toc_items_view(list.items@) =~= toc_items_view(list.items@) + Seq::<
                TocItemV,
            >::empty());
        }
        list
    }
}

impl Section {
    /// The table-of-contents entries below this section: one item per
    /// child section that does not hide itself.
    pub fn get_toc_list(&self, ordered: bool) -> (r: List)
        ensures
            r.ordered == ordered,
            toc_items_view(r.items@) == toc_secs(blocks_view(self.elements@)),
        decreases bvs_weight(blocks_view(self.elements@)), 0int,
    {
        let ghost bv = blocks_view(self.elements@);
        let mut list = List::new();
        list.ordered = ordered;
        let n = self.elements.len();
        let mut i: usize = 0;
        proof {
            assert(bv.skip(0) =~= bv);
        }
        while i < n
            invariant
                n == self.elements@.len(),
                bv == blocks_view(self.elements@),
                i <= n,
                list.ordered == ordered,
                toc_items_view(list.items@) + toc_secs(bv.skip(i as int)) == toc_secs(bv),
            decreases n - i,
        {
            let ghost items0 = list.items@;
            proof {
                lemma_bvs_weight_elem(bv, i as int);
                assert(bv.skip(i as int)[0] == bv[i as int]);
                assert(bv.skip(i as int).drop_first() =~= bv.skip(i as int + 1));
                assert(bv[i as int] == block_view(self.elements@[i as int]));
            }
            match &self.elements[i] {
                Block::Section(sec) => {
                    if !sec.get_hide_in_toc() {
                        let mut item = ListItem::new(
                            Line::Anchor(sec.header.get_anchor()),
                            1,
                            ordered,
                        );
                        proof {
                            assert(bv[i as int] matches BlockV::Section { children, .. }
                                && children == blocks_view(sec.elements@));
                        }
                        let mut sub = sec.get_toc_list(ordered);
                        let ghost subv = sub.items@;
                        item.children.append(&mut sub.items);
                        proof {
                            assert(item.children@ =~= subv);
                            assert(toc_item_view(item) == toc_entry(
                                sec.header,
                                toc_secs(blocks_view(sec.elements@)),
                            ));
                        }
                        list.add_item(item);
                        proof {
                            assert(toc_items_view(list.items@) =~= toc_items_view(items0)
                                + seq![toc_item_view(item)]);
                        }
                    } else {
                        proof {
                            assert(hidden_meta(match bv[i as int] {
                                BlockV::Section { metadata, .. } => metadata,
                                _ => None,
                            }));
                        }
                    }
                },
                _ => {},
            }
            i += 1;
        }
        proof {
            assert(bv.skip(n as int).len() == 0);
            assert(toc_items_view(list.items@) =~= toc_items_view(list.items@) + Seq::<
                TocItemV,
            >::empty());
        }
        list
    }
}

} // verus!

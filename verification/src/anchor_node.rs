//! Anchor nodes: splice buffers that let an import site be recorded in
//! parent order at once while its content is produced out of band. Buffers
//! live in an arena and are addressed by handle; a nested anchor stands for
//! content that a later flattening pass splices in place.
use vstd::prelude::*;

use crate::document::{gelem_view, gelems_view, lemma_gelems_view_index, lemma_gelems_view_len, ElemV, Element};

verus! {

broadcast use lemma_gelems_view_len, lemma_gelems_view_index;


/// The arena holding every anchor buffer; a handle is an index into it.
pub struct AnchorArena {
    pub nodes: Vec<Vec<Element>>,
}

/// A handle to one anchor buffer.
#[derive(Clone, Copy, Debug, PartialEq, Eq, Structural)]
pub struct AnchorNode {
    pub id: usize,
}

/// The whole arena, buffer by buffer, as element shapes.
pub open spec fn arena_model(a: AnchorArena) -> Seq<Seq<ElemV>> {
    a.nodes@.map(|i: int, v: Vec<Element>| gelems_view(v@))
}

/// Every anchor reference in the buffer of node `i` points above `i` and
/// into the arena: references ascend, so the reference structure is a
/// forest growing towards higher handles.
pub open spec fn arena_wf(a: AnchorArena) -> bool {
    forall|i: int, k: int|
        0 <= i < arena_model(a).len() && 0 <= k < arena_model(a)[i].len() ==> ((
        #[trigger] arena_model(a)[i][k]) matches ElemV::Anchor(h) ==> i < h < arena_model(
            a,
        ).len())
}

pub open spec fn model_no_anchors(s: Seq<ElemV>) -> bool {
    forall|k: int| 0 <= k < s.len() ==> !((#[trigger] s[k]) is Anchor)
}

/// The flattening of a buffer: every nested anchor whose handle lies above
/// `floor` is replaced, depth first, by the flattening of its own buffer;
/// every other element stays, in order.
pub open spec fn flatten_model(nodes: Seq<Seq<ElemV>>, elems: Seq<ElemV>, floor: int) -> Seq<
    ElemV,
>
    decreases nodes.len() - floor, elems.len(),
{
    if elems.len() == 0 {
        Seq::<ElemV>::empty()
    } else {
        (match elems[0] {
            ElemV::Anchor(h) => {
                if floor < h < nodes.len() {
                    flatten_model(nodes, nodes[h], h)
                } else {
                    seq![elems[0]]
                }
            },
            _ => seq![elems[0]],
        }) + flatten_model(nodes, elems.drop_first(), floor)
    }
}

/// Flattening distributes over concatenation.
pub proof fn lemma_flatten_model_concat(nodes: Seq<Seq<ElemV>>, a: Seq<ElemV>, b: Seq<ElemV>, floor: int)
    ensures
        flatten_model(nodes, a + b, floor) == flatten_model(nodes, a, floor) + flatten_model(
            nodes,
            b,
            floor,
        ),
    decreases a.len(),
{
    if a.len() == 0 {
        assert(a + b =~= b);
        assert(flatten_model(nodes, a, floor) + flatten_model(nodes, b, floor) =~= flatten_model(
            nodes,
            b,
            floor,
        ));
    } else {
        assert((a + b).drop_first() =~= a.drop_first() + b);
        lemma_flatten_model_concat(nodes, a.drop_first(), b, floor);
        assert((a + b)[0] == a[0]);
        assert(flatten_model(nodes, a + b, floor) =~= flatten_model(nodes, a, floor)
            + flatten_model(nodes, b, floor));
    }
}

/// Flattening a buffer with no nested anchors changes nothing.
pub proof fn lemma_flatten_model_noop(nodes: Seq<Seq<ElemV>>, elems: Seq<ElemV>, floor: int)
    requires
        model_no_anchors(elems),
    ensures
        flatten_model(nodes, elems, floor) == elems,
    decreases elems.len(),
{
    if elems.len() > 0 {
        lemma_flatten_model_noop(nodes, elems.drop_first(), floor);
        assert(flatten_model(nodes, elems, floor) =~= elems);
    }
}

/// In an arena whose references ascend, a flattened buffer holds no anchor
/// elements.
pub proof fn lemma_flatten_model_no_anchors(
    nodes: Seq<Seq<ElemV>>,
    elems: Seq<ElemV>,
    floor: int,
)
    requires
        0 <= floor,
        forall|i: int, k: int|
            0 <= i < nodes.len() && 0 <= k < nodes[i].len() ==> ((#[trigger] nodes[i][k]) matches
                ElemV::Anchor(h) ==> i < h < nodes.len()),
        forall|k: int|
            0 <= k < elems.len() ==> ((#[trigger] elems[k]) matches ElemV::Anchor(h) ==> floor < h
                < nodes.len()),
    ensures
        model_no_anchors(flatten_model(nodes, elems, floor)),
    decreases nodes.len() - floor, elems.len(),
{
    if elems.len() > 0 {
        match elems[0] {
            ElemV::Anchor(h) => {
                assert(floor < h < nodes.len());
                assert forall|k2: int|
                    0 <= k2 < nodes[h].len() implies ((#[trigger] nodes[h][k2]) matches
                    ElemV::Anchor(h2) ==> h < h2 < nodes.len()) by {
                    assert(0 <= h < nodes.len());
                }
                lemma_flatten_model_no_anchors(nodes, nodes[h], h);
            },
            _ => {},
        }
        assert(forall|k: int|
            0 <= k < elems.drop_first().len() ==> elems.drop_first()[k] == elems[k + 1]);
        lemma_flatten_model_no_anchors(nodes, elems.drop_first(), floor);
        let head = match elems[0] {
            ElemV::Anchor(h) => {
                if floor < h < nodes.len() {
                    flatten_model(nodes, nodes[h], h)
                } else {
                    seq![elems[0]]
                }
            },
            _ => seq![elems[0]],
        };
        let tail = flatten_model(nodes, elems.drop_first(), floor);
        assert(forall|k: int|
            0 <= k < (head + tail).len() ==> (head + tail)[k] == if k < head.len() {
                head[k]
            } else {
                tail[k - head.len()]
            });
    }
}

/// Flattening is idempotent: flattening an already flattened buffer — in
/// any arena — gives the same buffer back, so flattening twice equals
/// flattening once.
pub proof fn lemma_flatten_model_idempotent(
    nodes: Seq<Seq<ElemV>>,
    later: Seq<Seq<ElemV>>,
    elems: Seq<ElemV>,
    floor: int,
    floor2: int,
)
    requires
        0 <= floor,
        forall|i: int, k: int|
            0 <= i < nodes.len() && 0 <= k < nodes[i].len() ==> ((#[trigger] nodes[i][k]) matches
                ElemV::Anchor(h) ==> i < h < nodes.len()),
        forall|k: int|
            0 <= k < elems.len() ==> ((#[trigger] elems[k]) matches ElemV::Anchor(h) ==> floor < h
                < nodes.len()),
    ensures
        flatten_model(later, flatten_model(nodes, elems, floor), floor2) == flatten_model(
            nodes,
            elems,
            floor,
        ),
{
    lemma_flatten_model_no_anchors(nodes, elems, floor);
    lemma_flatten_model_noop(later, flatten_model(nodes, elems, floor), floor2);
}


/// Order preservation in general: an anchor at position `k` contributes its
/// own flattening exactly there, between the flattenings of what stands
/// before and after it.
pub proof fn lemma_flatten_model_at(nodes: Seq<Seq<ElemV>>, elems: Seq<ElemV>, floor: int, k: int, h: int)
    requires
        0 <= k < elems.len(),
        elems[k] == ElemV::Anchor(h),
        floor < h < nodes.len(),
    ensures
        flatten_model(nodes, elems, floor) == flatten_model(
            nodes,
            elems.subrange(0, k),
            floor,
        ) + flatten_model(nodes, nodes[h], h) + flatten_model(
            nodes,
            elems.subrange(k + 1, elems.len() as int),
            floor,
        ),
{
    let before = elems.subrange(0, k);
    let middle = seq![elems[k]];
    let after = elems.subrange(k + 1, elems.len() as int);
    assert(elems =~= before + middle + after);
    lemma_flatten_model_concat(nodes, before + middle, after, floor);
    lemma_flatten_model_concat(nodes, before, middle, floor);
    assert(middle.drop_first() =~= Seq::<ElemV>::empty());
    assert(flatten_model(nodes, middle, floor) == flatten_model(nodes, nodes[h], h)
        + flatten_model(nodes, Seq::<ElemV>::empty(), floor));
    assert(flatten_model(nodes, nodes[h], h) + Seq::<ElemV>::empty() =~= flatten_model(
        nodes,
        nodes[h],
        h,
    ));
}

/// Order preservation: when a buffer holds exactly one anchor, at position
/// `k`, flattening keeps the elements before and after it in their order
/// and splices the anchor's flattened content exactly at `k`.
pub proof fn lemma_flatten_model_splice(
    nodes: Seq<Seq<ElemV>>,
    elems: Seq<ElemV>,
    floor: int,
    k: int,
    h: int,
)
    requires
        0 <= k < elems.len(),
        elems[k] == ElemV::Anchor(h),
        floor < h < nodes.len(),
        forall|m: int| 0 <= m < elems.len() && m != k ==> !((#[trigger] elems[m]) is Anchor),
    ensures
        flatten_model(nodes, elems, floor) == elems.subrange(0, k) + flatten_model(
            nodes,
            nodes[h],
            h,
        ) + elems.subrange(k + 1, elems.len() as int),
    decreases k,
{
    if k == 0 {
        lemma_flatten_model_noop(nodes, elems.drop_first(), floor);
        assert(elems.subrange(1, elems.len() as int) =~= elems.drop_first());
        assert(elems.subrange(0, 0) =~= Seq::<ElemV>::empty());
        assert(flatten_model(nodes, elems, floor) =~= elems.subrange(0, 0) + flatten_model(
            nodes,
            nodes[h],
            h,
        ) + elems.subrange(1, elems.len() as int));
    } else {
        assert(!(elems[0] is Anchor));
        assert(forall|m: int|
            0 <= m < elems.drop_first().len() ==> elems.drop_first()[m] == elems[m + 1]);
        lemma_flatten_model_splice(nodes, elems.drop_first(), floor, k - 1, h);
        assert(elems.drop_first().subrange(0, k - 1) =~= elems.subrange(1, k));
        assert(elems.drop_first().subrange(k, elems.drop_first().len() as int) =~= elems.subrange(
            k + 1,
            elems.len() as int,
        ));
        assert(seq![elems[0]] + elems.subrange(1, k) =~= elems.subrange(0, k));
        assert(flatten_model(nodes, elems, floor) =~= elems.subrange(0, k) + flatten_model(
            nodes,
            nodes[h],
            h,
        ) + elems.subrange(k + 1, elems.len() as int));
    }
}

impl AnchorArena {
    pub fn new() -> (r: AnchorArena)
        ensures
            arena_model(r).len() == 0,
            arena_wf(r),
    {
        AnchorArena { nodes: Vec::new() }
    }
}

/// A duplicate of a buffer element, with the same shape.
pub fn clone_gelement(e: &Element) -> (r: Element)
    ensures
        gelem_view(r) == gelem_view(*e),
    decreases *e, 1int,
{
    match e {
        Element::AnchorNode(a) => Element::AnchorNode(AnchorNode { id: a.id }),
        Element::Section(s) => {
            let children = clone_gelements(&s.children);
            let r = Element::Section(crate::document::Section { children });
            r
        },
    }
}

/// Duplicates of a run of buffer elements, with the same shapes.
pub fn clone_gelements(v: &Vec<Element>) -> (r: Vec<Element>)
    ensures
        gelems_view(r@) == gelems_view(v@),
    decreases *v, 0int,
{
    let mut out: Vec<Element> = Vec::new();
    let mut k: usize = 0;
    while k < v.len()
        invariant
            k <= v@.len(),
            out@.len() == k,
            forall|m: int| 0 <= m < k ==> gelem_view(#[trigger] out@[m]) == gelem_view(v@[m]),
        decreases v@.len() - k,
    {
        out.push(clone_gelement(&v[k]));
        k += 1;
    }
    proof {
        assert(gelems_view(out@) =~= gelems_view(v@));
    }
    out
}

impl AnchorNode {
    /// A fresh anchor with an empty buffer.
    pub fn new(arena: &mut AnchorArena) -> (r: AnchorNode)
        requires
            arena_wf(*old(arena)),
        ensures
            arena_wf(*final(arena)),
            arena_model(*final(arena)).len() == arena_model(*old(arena)).len() + 1,
            r.id as int == arena_model(*old(arena)).len(),
            arena_model(*final(arena))[r.id as int] == Seq::<ElemV>::empty(),
            forall|j: int|
                0 <= j < arena_model(*old(arena)).len() ==> final(arena).nodes@[j] == old(
                    arena,
                ).nodes@[j],
    {
        let id = arena.nodes.len();
        arena.nodes.push(Vec::new());
        proof {
            assert(gelems_view(Seq::<Element>::empty()) =~= Seq::<ElemV>::empty());
            assert forall|i: int, k: int|
                0 <= i < arena_model(*arena).len() && 0 <= k < arena_model(*arena)[i].len() implies ((
            #[trigger] arena_model(*arena)[i][k]) matches ElemV::Anchor(h) ==> i < h < arena_model(
                *arena,
            ).len()) by {
                if i < arena_model(*old(arena)).len() {
                    assert(arena_model(*arena)[i] == arena_model(*old(arena))[i]);
                }
            }
        }
        AnchorNode { id }
    }

    /// Appends an element to this anchor's buffer. A nested anchor is
    /// registered through [`AnchorNode::get_anchor`], which keeps every
    /// handle referencing a later buffer; an element handed in here must
    /// respect the same order.
    pub fn add_element(&self, arena: &mut AnchorArena, element: Element)
        requires
            arena_wf(*old(arena)),
            self.id < old(arena).nodes@.len(),
            gelem_view(element) matches ElemV::Anchor(h) ==> self.id < h < old(
                arena,
            ).nodes@.len(),
        ensures
            arena_wf(*final(arena)),
            arena_model(*final(arena)).len() == arena_model(*old(arena)).len(),
            arena_model(*final(arena))[self.id as int] == arena_model(*old(arena))[self.id as int].push(
                gelem_view(element),
            ),
            forall|j: int|
                0 <= j < arena_model(*old(arena)).len() && j != self.id ==> final(arena).nodes@[j]
                    == old(arena).nodes@[j],
    {
        let slot = &mut arena.nodes[self.id];
        slot.push(element);
        proof {
            assert(arena_model(*arena)[self.id as int] =~= arena_model(*old(arena))[self.id as int].push(
                gelem_view(element),
            ));
            assert forall|i: int, k: int|
                0 <= i < arena_model(*arena).len() && 0 <= k < arena_model(*arena)[i].len() implies ((
            #[trigger] arena_model(*arena)[i][k]) matches ElemV::Anchor(h) ==> i < h < arena_model(
                *arena,
            ).len()) by {
                if i != self.id {
                    assert(arena_model(*arena)[i] == arena_model(*old(arena))[i]);
                } else {
                    if k < arena_model(*old(arena))[i].len() {
                        assert(arena_model(*arena)[i][k] == arena_model(*old(arena))[i][k]);
                    } else {
                        assert(arena_model(*arena)[i][k] == gelem_view(element));
                    }
                }
            }
        }
    }

    /// A snapshot of this anchor's buffer: duplicates with the same shapes,
    /// the buffer left in place.
    pub fn get_elements(&self, arena: &AnchorArena) -> (r: Vec<Element>)
        requires
            self.id < arena.nodes@.len(),
        ensures
            gelems_view(r@) == arena_model(*arena)[self.id as int],
    {
        let buffer = &arena.nodes[self.id];
        let mut out: Vec<Element> = Vec::new();
        let mut k: usize = 0;
        while k < buffer.len()
            invariant
                k <= buffer@.len(),
                out@.len() == k,
                self.id < arena.nodes@.len(),
                buffer@ == arena.nodes@[self.id as int]@,
                forall|m: int|
                    0 <= m < k ==> gelem_view(#[trigger] out@[m]) == gelem_view(buffer@[m]),
            decreases buffer@.len() - k,
        {
            out.push(clone_gelement(&buffer[k]));
            k += 1;
        }
        proof {
            assert(gelems_view(out@) =~= arena_model(*arena)[self.id as int]);
        }
        out
    }

    /// Takes the buffer out, leaving it empty, so that handing content to
    /// an owner cannot duplicate it.
    pub fn get_elements_once(&self, arena: &mut AnchorArena) -> (r: Vec<Element>)
        requires
            arena_wf(*old(arena)),
            self.id < old(arena).nodes@.len(),
        ensures
            arena_wf(*final(arena)),
            r == old(arena).nodes@[self.id as int],
            arena_model(*final(arena)).len() == arena_model(*old(arena)).len(),
            arena_model(*final(arena))[self.id as int] == Seq::<ElemV>::empty(),
            forall|j: int|
                0 <= j < arena_model(*old(arena)).len() && j != self.id ==> final(arena).nodes@[j]
                    == old(arena).nodes@[j],
    {
        let mut taken: Vec<Element> = Vec::new();
        let slot = &mut arena.nodes[self.id];
        core::mem::swap(slot, &mut taken);
        proof {
            assert(gelems_view(Seq::<Element>::empty()) =~= Seq::<ElemV>::empty());
            assert forall|i: int, k: int|
                0 <= i < arena_model(*arena).len() && 0 <= k < arena_model(*arena)[i].len() implies ((
            #[trigger] arena_model(*arena)[i][k]) matches ElemV::Anchor(h) ==> i < h < arena_model(
                *arena,
            ).len()) by {
                if i != self.id {
                    assert(arena_model(*arena)[i] == arena_model(*old(arena))[i]);
                }
            }
        }
        taken
    }

    /// Creates a fresh child anchor, records it in this buffer at the
    /// current position, and returns it: content produced later for the
    /// child appears at exactly this place after flattening.
    pub fn get_anchor(&self, arena: &mut AnchorArena) -> (r: AnchorNode)
        requires
            arena_wf(*old(arena)),
            self.id < old(arena).nodes@.len(),
        ensures
            arena_wf(*final(arena)),
            arena_model(*final(arena)).len() == arena_model(*old(arena)).len() + 1,
            r.id as int == arena_model(*old(arena)).len(),
            arena_model(*final(arena))[r.id as int] == Seq::<ElemV>::empty(),
            arena_model(*final(arena))[self.id as int] == arena_model(*old(arena))[self.id as int].push(
                ElemV::Anchor(r.id as int),
            ),
            forall|j: int|
                0 <= j < arena_model(*old(arena)).len() && j != self.id ==> final(arena).nodes@[j]
                    == old(arena).nodes@[j],
    {
        let node = AnchorNode::new(arena);
        self.add_element(arena, Element::AnchorNode(node));
        node
    }

    /// Flattens this anchor in place: every nested anchor is replaced,
    /// depth first, by its resolved contents, all non-anchor elements and
    /// spliced content keeping the order they were produced in; the buffers
    /// of consumed descendants are emptied. Flattening an anchor-free
    /// buffer is a no-op, and a second flattening changes nothing more.
    pub fn flatten(&self, arena: &mut AnchorArena)
        requires
            arena_wf(*old(arena)),
            self.id < old(arena).nodes@.len(),
        ensures
            arena_wf(*final(arena)),
            arena_model(*final(arena)).len() == arena_model(*old(arena)).len(),
            arena_model(*final(arena))[self.id as int] == flatten_model(
                arena_model(*old(arena)),
                arena_model(*old(arena))[self.id as int],
                self.id as int,
            ),
            model_no_anchors(arena_model(*final(arena))[self.id as int]),
            forall|j: int| 0 <= j < self.id ==> final(arena).nodes@[j] == old(arena).nodes@[j],
            forall|j: int|
                self.id < j < arena_model(*old(arena)).len() ==> (final(arena).nodes@[j] == old(
                    arena,
                ).nodes@[j] || arena_model(*final(arena))[j] == Seq::<ElemV>::empty()),
            model_no_anchors(arena_model(*old(arena))[self.id as int]) ==> forall|j: int|
                0 <= j < arena_model(*old(arena)).len() && j != self.id ==> final(arena).nodes@[j]
                    == old(arena).nodes@[j],
    {
        let ghost m0 = arena_model(*arena);
        let mut out = collect_flat(arena, self.id);
        clear_descendants(arena, self.id);
        let ghost between = *arena;
        let slot = &mut arena.nodes[self.id];
        core::mem::swap(slot, &mut out);
        proof {
            assert(arena_model(*arena)[self.id as int] == gelems_view(
                arena.nodes@[self.id as int]@,
            ));
            assert(arena_model(*arena)[self.id as int] == flatten_model(
                m0,
                m0[self.id as int],
                self.id as int,
            ));
            assert forall|j: int| 0 <= j < self.id implies arena.nodes@[j] == old(
                arena,
            ).nodes@[j] by {
                assert(arena.nodes@[j] == between.nodes@[j]);
            }
            assert forall|j: int|
                self.id < j < m0.len() implies (arena.nodes@[j] == old(arena).nodes@[j]
                    || arena_model(*arena)[j] == Seq::<ElemV>::empty()) by {
                assert(arena.nodes@[j] == between.nodes@[j]);
                if between.nodes@[j] != old(arena).nodes@[j] {
                    assert(arena_model(between)[j] == Seq::<ElemV>::empty());
                    assert(arena_model(*arena)[j] == arena_model(between)[j]);
                }
            }
            assert forall|i: int, k: int|
                0 <= i < arena_model(*arena).len() && 0 <= k < arena_model(*arena)[i].len() implies ((
            #[trigger] arena_model(*arena)[i][k]) matches ElemV::Anchor(h) ==> i < h < arena_model(
                *arena,
            ).len()) by {
                if i == self.id {
                    assert(model_no_anchors(arena_model(*arena)[i]));
                    assert(!(arena_model(*arena)[i][k] is Anchor));
                } else {
                    assert(arena.nodes@[i] == between.nodes@[i]);
                    assert(arena_model(*arena)[i] == arena_model(between)[i]);
                    assert(arena_model(between)[i][k] matches ElemV::Anchor(h) ==> i < h
                        < arena_model(between).len());
                }
            }
            if model_no_anchors(m0[self.id as int]) {
                lemma_flatten_model_noop(m0, m0[self.id as int], self.id as int);
                assert forall|j: int|
                    0 <= j < m0.len() && j != self.id implies arena.nodes@[j] == old(
                    arena,
                ).nodes@[j] by {
                    assert(arena.nodes@[j] == between.nodes@[j]);
                }
            }
        }
    }
}

/// The flattening of the buffer of `floor`, computed from the arena as it
/// stands, without changing it.
fn collect_flat(arena: &AnchorArena, floor: usize) -> (r: Vec<Element>)
    requires
        arena_wf(*arena),
        floor < arena.nodes@.len(),
    ensures
        gelems_view(r@) == flatten_model(
            arena_model(*arena),
            arena_model(*arena)[floor as int],
            floor as int,
        ),
        model_no_anchors(gelems_view(r@)),
    decreases arena.nodes@.len() - floor,
{
    let ghost m = arena_model(*arena);
    let buffer = &arena.nodes[floor];
    let mut out: Vec<Element> = Vec::new();
    let mut k: usize = 0;
    proof {
        assert(m[floor as int].subrange(0, 0) =~= Seq::<ElemV>::empty());
    }
    while k < buffer.len()
        invariant
            arena_wf(*arena),
            floor < arena.nodes@.len(),
            m == arena_model(*arena),
            buffer@ == arena.nodes@[floor as int]@,
            k <= buffer@.len(),
            m[floor as int].len() == buffer@.len(),
            gelems_view(out@) == flatten_model(
                m,
                m[floor as int].subrange(0, k as int),
                floor as int,
            ),
            model_no_anchors(gelems_view(out@)),
        decreases buffer@.len() - k,
    {
        let ghost prefix = m[floor as int].subrange(0, k as int);
        proof {
            assert(m[floor as int][k as int] == gelem_view(buffer@[k as int]));
            assert(m[floor as int].subrange(0, k + 1) =~= prefix + seq![m[floor as int][k as int]]);
            lemma_flatten_model_concat(
                m,
                prefix,
                seq![m[floor as int][k as int]],
                floor as int,
            );
            assert(seq![m[floor as int][k as int]].drop_first() =~= Seq::<ElemV>::empty());
        }
        match &buffer[k] {
            Element::AnchorNode(a) => {
                proof {
                    assert(m[floor as int][k as int] matches ElemV::Anchor(h) && h == a.id as int);
                    assert((floor as int) < a.id as int && (a.id as int) < m.len());
                }
                let mut sub = collect_flat(arena, a.id);
                proof {
                    let hh = a.id as int;
                    let single = seq![m[floor as int][k as int]];
                    assert(single.len() == 1);
                    assert(single[0] == m[floor as int][k as int]);
                    assert(single.drop_first() =~= Seq::<ElemV>::empty());
                    assert(single.drop_first() == Seq::<ElemV>::empty());
                    assert(flatten_model(m, Seq::<ElemV>::empty(), floor as int)
                        == Seq::<ElemV>::empty());
                    assert(flatten_model(m, single, floor as int) == flatten_model(m, m[hh], hh)
                        + Seq::<ElemV>::empty());
                    assert(flatten_model(m, m[hh], hh) + Seq::<ElemV>::empty() =~= flatten_model(
                        m,
                        m[hh],
                        hh,
                    ));
                    assert(gelems_view(out@ + sub@) =~= gelems_view(out@) + gelems_view(sub@));
                }
                out.append(&mut sub);
            },
            _ => {
                let copied = clone_gelement(&buffer[k]);
                proof {
                    assert(!(m[floor as int][k as int] is Anchor));
                    let single = seq![m[floor as int][k as int]];
                    assert(single.len() == 1);
                    assert(single[0] == m[floor as int][k as int]);
                    assert(single.drop_first() =~= Seq::<ElemV>::empty());
                    assert(single.drop_first() == Seq::<ElemV>::empty());
                    assert(flatten_model(m, Seq::<ElemV>::empty(), floor as int)
                        == Seq::<ElemV>::empty());
                    assert(flatten_model(m, single, floor as int) == single + Seq::<
                        ElemV,
                    >::empty());
                    assert(single + Seq::<ElemV>::empty() =~= single);
                    assert(gelems_view(out@.push(copied)) =~= gelems_view(out@) + seq![
                        gelem_view(copied),
                    ]);
                }
                out.push(copied);
            },
        }
        proof {
            assert(model_no_anchors(gelems_view(out@))) by {
                lemma_flatten_model_no_anchors(
                    m,
                    m[floor as int].subrange(0, k + 1),
                    floor as int,
                );
            }
        }
        k += 1;
    }
    proof {
        assert(m[floor as int].subrange(0, m[floor as int].len() as int) =~= m[floor as int]);
    }
    out
}

/// Empties the buffer of `floor` and, depth first, the buffer of every
/// anchor it references: consumed content is logically destroyed.
fn clear_descendants(arena: &mut AnchorArena, floor: usize)
    requires
        arena_wf(*old(arena)),
        floor < old(arena).nodes@.len(),
    ensures
        arena_wf(*final(arena)),
        arena_model(*final(arena)).len() == arena_model(*old(arena)).len(),
        arena_model(*final(arena))[floor as int] == Seq::<ElemV>::empty(),
        forall|j: int| 0 <= j < floor ==> final(arena).nodes@[j] == old(arena).nodes@[j],
        forall|j: int|
            0 <= j < arena_model(*old(arena)).len() ==> (final(arena).nodes@[j] == old(
                arena,
            ).nodes@[j] || arena_model(*final(arena))[j] == Seq::<ElemV>::empty()),
        model_no_anchors(arena_model(*old(arena))[floor as int]) ==> forall|j: int|
            0 <= j < arena_model(*old(arena)).len() && j != floor ==> final(arena).nodes@[j] == old(
                arena,
            ).nodes@[j],
    decreases old(arena).nodes@.len() - floor,
{
    let ghost m0 = arena_model(*old(arena));
    let mut taken: Vec<Element> = Vec::new();
    let slot = &mut arena.nodes[floor];
    core::mem::swap(slot, &mut taken);
    proof {
        assert(gelems_view(Seq::<Element>::empty()) =~= Seq::<ElemV>::empty());
        assert forall|i: int, k: int|
            0 <= i < arena_model(*arena).len() && 0 <= k < arena_model(*arena)[i].len() implies ((
        #[trigger] arena_model(*arena)[i][k]) matches ElemV::Anchor(h) ==> i < h < arena_model(
            *arena,
        ).len()) by {
            if i != floor {
                assert(arena_model(*arena)[i] == arena_model(*old(arena))[i]);
            }
        }
    }
    let mut k: usize = 0;
    while k < taken.len()
        invariant
            arena_wf(*arena),
            floor < arena.nodes@.len(),
            arena_model(*arena).len() == m0.len(),
            arena.nodes@.len() == old(arena).nodes@.len(),
            arena_model(*arena)[floor as int] == Seq::<ElemV>::empty(),
            gelems_view(taken@) == m0[floor as int],
            k <= taken@.len(),
            forall|i2: int, k2: int|
                0 <= i2 < m0.len() && 0 <= k2 < m0[i2].len() ==> ((#[trigger] m0[i2][k2]) matches
                    ElemV::Anchor(h2) ==> i2 < h2 < m0.len()),
            forall|j: int| 0 <= j < floor ==> arena.nodes@[j] == old(arena).nodes@[j],
            forall|j: int|
                0 <= j < m0.len() ==> (arena.nodes@[j] == old(arena).nodes@[j] || arena_model(
                    *arena,
                )[j] == Seq::<ElemV>::empty()),
            model_no_anchors(m0[floor as int]) ==> forall|j: int|
                0 <= j < m0.len() && j != floor ==> arena.nodes@[j] == old(arena).nodes@[j],
        decreases taken@.len() - k,
    {
        match &taken[k] {
            Element::AnchorNode(a) => {
                proof {
                    assert(m0[floor as int][k as int] == gelem_view(taken@[k as int]));
                    assert(m0[floor as int][k as int] is Anchor);
                    if model_no_anchors(m0[floor as int]) {
                        assert(!(m0[floor as int][k as int] is Anchor));
                    }
                }
                let h = a.id;
                proof {
                    assert((floor as int) < h as int && (h as int) < m0.len());
                    assert(arena.nodes@.len() == old(arena).nodes@.len());
                    assert(h < arena.nodes@.len());
                }
                let ghost precall = *arena;
                clear_descendants(arena, h);
                proof {
                    assert forall|j: int|
                        0 <= j < m0.len() implies (arena.nodes@[j] == old(arena).nodes@[j]
                            || arena_model(*arena)[j] == Seq::<ElemV>::empty()) by {
                        if arena.nodes@[j] == precall.nodes@[j] {
                            if precall.nodes@[j] != old(arena).nodes@[j] {
                                assert(arena_model(precall)[j] == Seq::<ElemV>::empty());
                                assert(arena_model(*arena)[j] == arena_model(precall)[j]);
                            }
                        } else {
                            assert(arena_model(*arena)[j] == Seq::<ElemV>::empty());
                        }
                    }
                    assert forall|j: int| 0 <= j < floor implies arena.nodes@[j] == old(
                        arena,
                    ).nodes@[j] by {
                        assert(arena.nodes@[j] == precall.nodes@[j]);
                    }
                    assert(arena_model(*arena)[floor as int] == arena_model(precall)[floor as int]);
                }
            },
            _ => {},
        }
        k += 1;
    }
}


} // verus!

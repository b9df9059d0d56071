use snekdown::anchor_node::{AnchorArena, AnchorNode};
use snekdown::document::{Element, Section};

fn leaf(n: usize) -> Element {
    // a section with n empty children, used to tell elements apart
    let mut children = Vec::new();
    for _ in 0..n {
        children.push(Element::Section(Section { children: Vec::new() }));
    }
    Element::Section(Section { children })
}

fn leaf_size(e: &Element) -> usize {
    match e {
        Element::Section(s) => s.children.len(),
        Element::AnchorNode(_) => panic!("expected a section"),
    }
}

#[test]
fn flattening_without_nested_anchors_is_a_no_op() {
    let mut arena = AnchorArena::new();
    let root = AnchorNode::new(&mut arena);
    root.add_element(&mut arena, leaf(1));
    root.add_element(&mut arena, leaf(2));
    root.flatten(&mut arena);
    let elements = root.get_elements(&arena);
    assert_eq!(elements.len(), 2);
    assert_eq!(leaf_size(&elements[0]), 1);
    assert_eq!(leaf_size(&elements[1]), 2);
}

#[test]
fn flattening_twice_equals_flattening_once() {
    let mut arena = AnchorArena::new();
    let root = AnchorNode::new(&mut arena);
    root.add_element(&mut arena, leaf(1));
    let child = root.get_anchor(&mut arena);
    root.add_element(&mut arena, leaf(2));
    child.add_element(&mut arena, leaf(3));
    root.flatten(&mut arena);
    let once: Vec<usize> = root.get_elements(&arena).iter().map(leaf_size).collect();
    root.flatten(&mut arena);
    let twice: Vec<usize> = root.get_elements(&arena).iter().map(leaf_size).collect();
    assert_eq!(once, vec![1, 3, 2]);
    assert_eq!(twice, once);
}

#[test]
fn flattening_splices_content_in_place() {
    let mut arena = AnchorArena::new();
    let root = AnchorNode::new(&mut arena);
    root.add_element(&mut arena, leaf(1));
    root.add_element(&mut arena, leaf(2));
    let child = root.get_anchor(&mut arena);
    root.add_element(&mut arena, leaf(5));
    // content produced out of band, in its own order, with a nested anchor
    child.add_element(&mut arena, leaf(3));
    let grandchild = child.get_anchor(&mut arena);
    grandchild.add_element(&mut arena, leaf(4));
    root.flatten(&mut arena);
    let sizes: Vec<usize> = root.get_elements(&arena).iter().map(leaf_size).collect();
    // before the anchor unchanged, spliced content exactly at its position,
    // the rest after it
    assert_eq!(sizes, vec![1, 2, 3, 4, 5]);
}

#[test]
fn taking_the_elements_once_empties_the_buffer() {
    let mut arena = AnchorArena::new();
    let root = AnchorNode::new(&mut arena);
    root.add_element(&mut arena, leaf(1));
    let taken = root.get_elements_once(&mut arena);
    assert_eq!(taken.len(), 1);
    assert!(root.get_elements(&arena).is_empty());
}

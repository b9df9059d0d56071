use snekdown::elements::{
    meta_get_bool, meta_get_string, Bibliography, BibEntry, Block, Header, InlineMetadata, Line,
    Metadata, Section, TextLine,
};
use snekdown::elements::Document;
use snekdown::section_anchors::{SectionArena, SectionEntry, SectionNode};

fn section_with_meta(size: u8, meta: Option<&str>) -> Section {
    let mut header = Header::new(Line::Text(TextLine { subtext: Vec::new() }), String::new());
    header.size = size;
    let mut section = Section::new(header);
    section.metadata = meta.map(|m| InlineMetadata { data: m.to_string() });
    section
}

#[test]
fn metadata_reads_flags_and_pairs() {
    let meta = InlineMetadata { data: "toc-hidden,source=me".to_string() };
    assert!(meta.get_bool("toc-hidden"));
    assert!(!meta.get_bool("source"));
    assert!(!meta.get_bool("missing"));
    assert_eq!(meta.get_string("source"), Some("me".to_string()));
    assert_eq!(meta.get_string("toc-hidden"), None);
    assert_eq!(meta_get_string(&meta, "sour"), None);
    assert!(!meta_get_bool(&meta, "toc"));
}

#[test]
fn a_hidden_section_stays_out_of_the_toc() {
    let mut doc = Document::new(true);
    let mut shown = section_with_meta(1, None);
    shown.add_element(Block::Section(section_with_meta(2, None)));
    doc.add_element(Block::Section(shown));
    doc.add_element(Block::Section(section_with_meta(1, Some("toc-hidden"))));
    let toc = doc.create_toc(false);
    assert!(!toc.ordered);
    assert_eq!(toc.items.len(), 1);
    assert_eq!(toc.items[0].children.len(), 1);
    assert!(toc.items[0].children[0].children.is_empty());
}

#[test]
fn hidden_section_flag_is_read_from_metadata() {
    assert!(section_with_meta(1, Some("toc-hidden")).get_hide_in_toc());
    assert!(!section_with_meta(1, Some("source=me")).get_hide_in_toc());
    assert!(!section_with_meta(1, None).get_hide_in_toc());
}

#[test]
fn bibliographies_combine_in_order() {
    let mut a = Bibliography::new();
    a.entries.push(BibEntry { key: "x".to_string() });
    let mut b = Bibliography::new();
    b.entries.push(BibEntry { key: "y".to_string() });
    b.entries.push(BibEntry { key: "z".to_string() });
    a.combine(&mut b);
    let keys: Vec<&str> = a.entries.iter().map(|e| e.key.as_str()).collect();
    assert_eq!(keys, vec!["x", "y", "z"]);
    assert!(b.entries.is_empty());
}

#[test]
fn section_graph_children_inherit_the_level() {
    let mut arena = SectionArena::new();
    let root = SectionNode {
        parent: SectionEntry::Root(0),
        children: Vec::new(),
        level: 0,
    };
    arena.nodes.push(root);
    let entry = SectionEntry::Node(0);
    assert_eq!(entry.get_level(&arena), 0);
    let child = entry.create_child(&mut arena).expect("expected a child handle");
    assert_eq!(child, 1);
    assert_eq!(arena.nodes[1].level, 0);
    assert_eq!(arena.nodes[0].children.len(), 1);
    let anchor_entry = SectionEntry::Anchor(snekdown::anchor_node::AnchorNode { id: 0 });
    assert!(anchor_entry.create_child(&mut arena).is_none());
}

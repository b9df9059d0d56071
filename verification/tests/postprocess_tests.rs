use snekdown::elements::{
    BibEntry, Block, Document, Header, Import, ImportAnchor, Line, Paragraph, PlainText,
    Inline, Section, TextLine,
};

fn header(size: u8, title: &str) -> Header {
    let mut h = Header::new(
        Line::Text(TextLine {
            subtext: vec![Inline::Plain(PlainText { value: title.to_string() })],
        }),
        String::new(),
    );
    h.size = size;
    h
}

fn section(size: u8, title: &str) -> Section {
    Section::new(header(size, title))
}

fn para(word: &str) -> Block {
    let mut p = Paragraph::new();
    p.add_element(Line::Text(TextLine {
        subtext: vec![Inline::Plain(PlainText { value: word.to_string() })],
    }));
    Block::Paragraph(p)
}

fn para_word(b: &Block) -> &str {
    match b {
        Block::Paragraph(p) => match &p.elements[0] {
            Line::Text(t) => match &t.subtext[0] {
                Inline::Plain(pl) => pl.value.as_str(),
                _ => panic!("expected plain"),
            },
            _ => panic!("expected text"),
        },
        other => panic!("expected a paragraph, got {:?}", other),
    }
}

fn title_of(s: &Section) -> &str {
    match &s.header.line {
        Line::Text(t) => match &t.subtext[0] {
            Inline::Plain(pl) => pl.value.as_str(),
            _ => panic!("expected plain"),
        },
        _ => panic!("expected text"),
    }
}

#[test]
fn sections_renest_by_heading_level() {
    // headings at levels [1, 2, 2, 3, 1]
    let mut doc = Document::new(true);
    doc.add_element(Block::Section(section(1, "a")));
    doc.add_element(Block::Section(section(2, "b")));
    doc.add_element(Block::Section(section(2, "c")));
    doc.add_element(Block::Section(section(3, "d")));
    doc.add_element(Block::Section(section(1, "e")));
    doc.postprocess_imports();

    assert_eq!(doc.elements.len(), 2);
    let root1 = match &doc.elements[0] {
        Block::Section(s) => s,
        other => panic!("expected a section, got {:?}", other),
    };
    let root2 = match &doc.elements[1] {
        Block::Section(s) => s,
        other => panic!("expected a section, got {:?}", other),
    };
    assert_eq!(root1.header.size, 1);
    assert_eq!(title_of(root1), "a");
    assert_eq!(root2.header.size, 1);
    assert_eq!(title_of(root2), "e");
    assert!(root2.elements.is_empty());

    assert_eq!(root1.elements.len(), 2);
    let (b, c) = match (&root1.elements[0], &root1.elements[1]) {
        (Block::Section(b), Block::Section(c)) => (b, c),
        other => panic!("expected two sections, got {:?}", other),
    };
    assert_eq!(title_of(b), "b");
    assert!(b.elements.is_empty());
    assert_eq!(title_of(c), "c");
    assert_eq!(c.elements.len(), 1);
    match &c.elements[0] {
        Block::Section(d) => {
            assert_eq!(d.header.size, 3);
            assert_eq!(title_of(d), "d");
        },
        other => panic!("expected the level-3 section, got {:?}", other),
    }
}

#[test]
fn a_resolved_import_is_spliced_in_place() {
    let mut inner = Document::new(false);
    inner.add_element(para("x"));
    inner.add_element(para("y"));
    inner.bibliography.entries.push(BibEntry { key: "k1".to_string() });

    let mut anchor = ImportAnchor::new();
    anchor.set_document(inner);
    let mut doc = Document::new(true);
    doc.add_element(para("a"));
    doc.add_element(Block::Import(Import { path: "other.md".to_string(), anchor }));
    doc.add_element(para("b"));
    doc.bibliography.entries.push(BibEntry { key: "k0".to_string() });

    doc.postprocess_imports();

    let words: Vec<&str> = doc.elements.iter().map(para_word).collect();
    assert_eq!(words, vec!["a", "x", "y", "b"]);
    let keys: Vec<&str> = doc.bibliography.entries.iter().map(|e| e.key.as_str()).collect();
    assert_eq!(keys, vec!["k0", "k1"]);
}

#[test]
fn an_unresolved_import_is_kept_for_a_later_pass() {
    let mut doc = Document::new(true);
    doc.add_element(para("a"));
    doc.add_element(Block::Import(Import {
        path: "missing.md".to_string(),
        anchor: ImportAnchor::new(),
    }));
    doc.postprocess_imports();
    assert_eq!(doc.elements.len(), 2);
    match &doc.elements[1] {
        Block::Import(imp) => {
            assert_eq!(imp.path, "missing.md");
            assert!(imp.anchor.document.is_none());
        },
        other => panic!("expected the import to stay, got {:?}", other),
    }
}

#[test]
fn loose_blocks_join_the_open_section() {
    let mut doc = Document::new(true);
    doc.add_element(Block::Section(section(1, "a")));
    doc.add_element(para("inside"));
    doc.postprocess_imports();
    assert_eq!(doc.elements.len(), 1);
    match &doc.elements[0] {
        Block::Section(s) => {
            assert_eq!(s.elements.len(), 1);
            assert_eq!(para_word(&s.elements[0]), "inside");
        },
        other => panic!("expected a section, got {:?}", other),
    }
}

#[test]
fn post_process_runs_the_structural_passes() {
    let mut doc = Document::new(true);
    doc.add_element(Block::Section(section(1, "a")));
    doc.add_element(Block::Section(section(2, "b")));
    doc.post_process();
    assert_eq!(doc.elements.len(), 1);
    match &doc.elements[0] {
        Block::Section(s) => {
            assert_eq!(s.elements.len(), 1);
            assert!(matches!(&s.elements[0], Block::Section(_)));
        },
        other => panic!("expected a section, got {:?}", other),
    }
}

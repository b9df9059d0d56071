use snekdown::elements::{Block, Inline, Line};
use snekdown::parser::{ParseError, Parser};

fn line_subtexts(line: &Line) -> &Vec<Inline> {
    match line {
        Line::Text(t) => &t.subtext,
        _ => panic!("expected a text line"),
    }
}

fn plain_value(s: &Inline) -> &str {
    match s {
        Inline::Plain(p) => p.value.as_str(),
        _ => panic!("expected plain text"),
    }
}

#[test]
fn it_parses_a_document_end_to_end() {
    let mut parser = Parser::new("# H1\n- item\n **hoho** `aha`".to_string());
    let document = parser.parse();
    assert!(document.is_root);
    assert_eq!(document.elements.len(), 1);
    let section = match &document.elements[0] {
        Block::Section(section) => section,
        other => panic!("expected a section, got {:?}", other),
    };
    assert_eq!(section.header.size, 1);
    let title = line_subtexts(&section.header.line);
    assert_eq!(title.len(), 1);
    assert_eq!(plain_value(&title[0]), "H1");

    assert_eq!(section.elements.len(), 2);
    let list = match &section.elements[0] {
        Block::List(list) => list,
        other => panic!("expected a list, got {:?}", other),
    };
    assert!(!list.ordered);
    assert_eq!(list.items.len(), 1);
    assert_eq!(list.items[0].level, 0);
    assert!(list.items[0].children.is_empty());
    let item_text = line_subtexts(&list.items[0].text);
    assert_eq!(plain_value(&item_text[0]), "item");

    let paragraph = match &section.elements[1] {
        Block::Paragraph(paragraph) => paragraph,
        other => panic!("expected a paragraph, got {:?}", other),
    };
    assert_eq!(paragraph.elements.len(), 1);
    let spans = line_subtexts(&paragraph.elements[0]);
    let bold_inner = spans
        .iter()
        .find_map(|s| match s {
            Inline::Bold(b) => Some(&b.value),
            _ => None,
        })
        .expect("expected a bold span");
    assert_eq!(plain_value(bold_inner), "hoho");
    let mono = spans
        .iter()
        .find_map(|s| match s {
            Inline::Monospace(m) => Some(m.value.value.as_str()),
            _ => None,
        })
        .expect("expected a monospace span");
    assert_eq!(mono, "aha");
}

#[test]
fn it_keeps_escaped_specials_plain() {
    let mut parser = Parser::new("\\*not italic\\*".to_string());
    let document = parser.parse();
    assert_eq!(document.elements.len(), 1);
    let paragraph = match &document.elements[0] {
        Block::Paragraph(paragraph) => paragraph,
        other => panic!("expected a paragraph, got {:?}", other),
    };
    let spans = line_subtexts(&paragraph.elements[0]);
    assert_eq!(spans.len(), 1);
    assert_eq!(plain_value(&spans[0]), "\\*not italic\\*");
    for line in &paragraph.elements {
        for span in line_subtexts(line) {
            assert!(!matches!(span, Inline::Italic(_)));
        }
    }
}

#[test]
fn it_rejects_a_target_that_is_no_uri() {
    let mut parser = Parser::new("[desc](not a uri)".to_string());
    let document = parser.parse();
    let paragraph = match &document.elements[0] {
        Block::Paragraph(paragraph) => paragraph,
        other => panic!("expected a paragraph, got {:?}", other),
    };
    let mut all_text = String::new();
    for line in &paragraph.elements {
        for span in line_subtexts(line) {
            assert!(!matches!(span, Inline::Url(_)));
            assert!(!matches!(span, Inline::Image(_)));
            all_text.push_str(plain_value(span));
        }
    }
    assert_eq!(all_text, "[desc](not a uri)");
}

#[test]
fn it_accepts_a_well_formed_link() {
    let mut parser = Parser::new("see [docs](https://example.com/a?b=1) now".to_string());
    let document = parser.parse();
    let paragraph = match &document.elements[0] {
        Block::Paragraph(paragraph) => paragraph,
        other => panic!("expected a paragraph, got {:?}", other),
    };
    let spans = line_subtexts(&paragraph.elements[0]);
    let url = spans
        .iter()
        .find_map(|s| match s {
            Inline::Url(u) => Some(u),
            _ => None,
        })
        .expect("expected a link");
    assert_eq!(url.description.as_deref(), Some("docs"));
    assert_eq!(url.url, "https://example.com/a?b=1");
}

#[test]
fn it_restores_the_cursor_on_failure() {
    let mut parser = Parser::new("plain words".to_string());
    assert_eq!(parser.index, 0);
    let row = parser.parse_row();
    assert!(row.is_err());
    assert_eq!(parser.index, 0);
    let block = parser.parse_code_block();
    assert!(block.is_err());
    assert_eq!(parser.index, 0);
}

#[test]
fn it_parses_a_code_block_verbatim() {
    let mut parser = Parser::new("```rust\nlet *a* = _b_;\n```\n".to_string());
    let document = parser.parse();
    let code = match &document.elements[0] {
        Block::CodeBlock(code) => code,
        other => panic!("expected a code block, got {:?}", other),
    };
    assert_eq!(code.language, "rust");
    assert_eq!(code.code, "let *a* = _b_;");
}

#[test]
fn it_parses_a_quote_with_metadata() {
    let mut parser = Parser::new("{source=me}> quoted words\n".to_string());
    let document = parser.parse();
    let quote = match &document.elements[0] {
        Block::Quote(quote) => quote,
        other => panic!("expected a quote, got {:?}", other),
    };
    let meta = quote.metadata.as_ref().expect("expected quote metadata");
    assert_eq!(meta.data, "source=me");
    assert_eq!(quote.text.len(), 1);
    assert_eq!(plain_value(&quote.text[0].subtext[0]), "quoted words");
}

#[test]
fn it_parses_a_table_with_a_separator() {
    let mut parser = Parser::new("|a|b|\n-|---\n|c|d|\n".to_string());
    let document = parser.parse();
    let table = match &document.elements[0] {
        Block::Table(table) => table,
        other => panic!("expected a table, got {:?}", other),
    };
    assert_eq!(table.header.cells.len(), 2);
    assert_eq!(table.rows.len(), 1);
    assert_eq!(table.rows[0].cells.len(), 2);
    assert_eq!(plain_value(line_subtexts(&table.header.cells[0].text).first().unwrap()), "a");
    assert_eq!(plain_value(line_subtexts(&table.rows[0].cells[1].text).first().unwrap()), "d");
}

#[test]
fn it_nests_list_items_by_indentation() {
    let mut parser = Parser::new("- r1\n  - c1\n  - c2\n    - g1\n- r2\n".to_string());
    let document = parser.parse();
    let list = match &document.elements[0] {
        Block::List(list) => list,
        other => panic!("expected a list, got {:?}", other),
    };
    assert_eq!(list.items.len(), 2);
    let first = &list.items[0];
    assert_eq!(first.level, 0);
    assert_eq!(plain_value(&line_subtexts(&first.text)[0]), "r1");
    assert_eq!(first.children.len(), 2);
    assert_eq!(first.children[0].level, 2);
    assert_eq!(plain_value(&line_subtexts(&first.children[0].text)[0]), "c1");
    assert!(first.children[0].children.is_empty());
    assert_eq!(first.children[1].level, 2);
    assert_eq!(plain_value(&line_subtexts(&first.children[1].text)[0]), "c2");
    assert_eq!(first.children[1].children.len(), 1);
    assert_eq!(first.children[1].children[0].level, 4);
    assert_eq!(plain_value(&line_subtexts(&first.children[1].children[0].text)[0]), "g1");
    let second = &list.items[1];
    assert_eq!(second.level, 0);
    assert_eq!(plain_value(&line_subtexts(&second.text)[0]), "r2");
    assert!(second.children.is_empty());
}

#[test]
fn it_reports_the_failing_index() {
    let err = ParseError::new(17);
    assert_eq!(err.get_index(), 17);
}

#[test]
fn it_parses_nested_sections_while_scanning() {
    let mut parser = Parser::new("# a\n## b\n# c\n".to_string());
    let document = parser.parse();
    assert_eq!(document.elements.len(), 2);
    match (&document.elements[0], &document.elements[1]) {
        (Block::Section(a), Block::Section(c)) => {
            assert_eq!(a.header.size, 1);
            assert_eq!(c.header.size, 1);
            let inner = a
                .elements
                .iter()
                .find_map(|b| match b {
                    Block::Section(s) => Some(s),
                    _ => None,
                })
                .expect("expected a nested section");
            assert_eq!(inner.header.size, 2);
        },
        other => panic!("expected two sections, got {:?}", other),
    }
}

#[test]
fn it_parses_empty_input_to_a_blank_document() {
    let mut parser = Parser::new(String::new());
    let document = parser.parse();
    // the trailing sentinels leave one paragraph with a single blank line
    assert_eq!(document.elements.len(), 1);
    match &document.elements[0] {
        Block::Paragraph(p) => {
            for line in &p.elements {
                assert!(line_subtexts(line).is_empty());
            }
        },
        other => panic!("expected a paragraph, got {:?}", other),
    }
    assert!(document.placeholders.is_empty());
    assert!(document.bibliography.entries.is_empty());
}

#[test]
fn it_parses_an_ordered_list() {
    let mut parser = Parser::new("1. one\n2. two\n".to_string());
    let document = parser.parse();
    let list = match &document.elements[0] {
        Block::List(list) => list,
        other => panic!("expected a list, got {:?}", other),
    };
    assert!(list.ordered);
    assert_eq!(list.items.len(), 2);
    assert!(list.items.iter().all(|i| i.ordered));
    assert_eq!(plain_value(&line_subtexts(&list.items[0].text)[0]), "one");
    assert_eq!(plain_value(&line_subtexts(&list.items[1].text)[0]), "two");
}

#[test]
fn it_parses_a_plain_quote() {
    let mut parser = Parser::new("> hi there\n".to_string());
    let document = parser.parse();
    let quote = match &document.elements[0] {
        Block::Quote(quote) => quote,
        other => panic!("expected a quote, got {:?}", other),
    };
    assert!(quote.metadata.is_none());
    assert_eq!(quote.text.len(), 1);
    assert_eq!(plain_value(&quote.text[0].subtext[0]), "hi there");
}

#[test]
fn a_list_item_needs_a_marker_or_a_digit() {
    let mut parser = Parser::new("~ x\n".to_string());
    let document = parser.parse();
    // `~` is neither a list marker nor numeric, so no list is parsed
    assert!(!document.elements.iter().any(|b| matches!(b, Block::List(_))));
}

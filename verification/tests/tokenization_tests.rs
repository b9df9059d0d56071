use snekdown::tokenizer::Tokenizer;
use snekdown::tokens::{get_mappings, BlockToken, InlineToken, LineToken, TextToken, Token};

#[test]
fn it_tokenizes() {
    let mut tokenizer = Tokenizer::new("# H1\n- item\n **hoho** `aha`".to_string());
    let tokens = tokenizer.parse();
    assert_eq!(
        tokens,
        vec![
            Token::Block(BlockToken::H1),
            Token::Text(TextToken::InlineWhitespace),
            Token::Text(TextToken::Plain("H1".to_string())),
            Token::Text(TextToken::LineBreak),
            Token::Line(LineToken::ListItem(false)),
            Token::Text(TextToken::Plain("item".to_string())),
            Token::Text(TextToken::LineBreak),
            Token::Text(TextToken::InlineWhitespace),
            Token::Inline(InlineToken::Bold),
            Token::Text(TextToken::Plain("hoho".to_string())),
            Token::Inline(InlineToken::Bold),
            Token::Text(TextToken::InlineWhitespace),
            Token::Inline(InlineToken::Mono),
            Token::Text(TextToken::Plain("aha".to_string())),
            Token::Inline(InlineToken::Mono),
        ]
    )
}

#[test]
fn it_tokenizes_empty_input() {
    let mut tokenizer = Tokenizer::new(String::new());
    let tokens = tokenizer.parse();
    // only the appended line break remains, and a trailing literal at the
    // very end of the tape never matches
    assert_eq!(tokens, vec![]);
}

#[test]
fn it_keeps_the_mapping_order() {
    let table = get_mappings();
    assert_eq!(table.len(), 44);
    assert_eq!(table[0].0[0], "######".to_string());
    assert_eq!(table[0].1, Token::Block(BlockToken::H6));
    assert_eq!(table[5].0[0], "#".to_string());
    assert_eq!(table[5].1, Token::Block(BlockToken::H1));
    assert_eq!(table[43].1, Token::Text(TextToken::Pipe));
}

#[test]
fn it_prefers_longer_heading_literals() {
    let mut tokenizer = Tokenizer::new("### x\n".to_string());
    let tokens = tokenizer.parse();
    assert_eq!(
        tokens,
        vec![
            Token::Block(BlockToken::H3),
            Token::Text(TextToken::InlineWhitespace),
            Token::Text(TextToken::Plain("x".to_string())),
            Token::Text(TextToken::LineBreak),
        ]
    );
}

#[test]
fn an_asterisk_is_an_italic_marker_not_a_list_marker() {
    // the literal tokenizer and the cursor parser agree: `*` starts an
    // italic span, only `-` and `o` start an unordered item
    let mut tokenizer = Tokenizer::new("* x\n".to_string());
    let tokens = tokenizer.parse();
    assert_eq!(
        tokens,
        vec![
            Token::Inline(InlineToken::Italic),
            Token::Text(TextToken::InlineWhitespace),
            Token::Text(TextToken::Plain("x".to_string())),
            Token::Text(TextToken::LineBreak),
        ]
    );
}

//! Token kinds and the character constants of the grammar.
use vstd::prelude::*;

verus! {

/// The escape character: a special character preceded by it is literal.
pub const SPECIAL_ESCAPE: char = '\\';

/// The line break character.
pub const LB: char = '\n';

pub const HASH: char = '#';

pub const MINUS: char = '-';

pub const PIPE: char = '|';

pub const ASTERISK: char = '*';

pub const UNDERSCR: char = '_';

pub const TILDE: char = '~';

pub const BACKTICK: char = '`';

pub const QUOTE_START: char = '>';

pub const META_OPEN: char = '{';

pub const META_CLOSE: char = '}';

pub const IMG_START: char = '!';

pub const DESC_OPEN: char = '[';

pub const DESC_CLOSE: char = ']';

pub const URL_OPEN: char = '(';

pub const URL_CLOSE: char = ')';

/// Anchored pattern accepted by the URI predicate: either a scheme followed
/// by a nonempty run without whitespace, or a dotted host with an optional path.
pub const EXPR_URI: &'static str ="^([a-zA-Z][a-zA-Z0-9+.-]*:(//)?[^ \\t\\n]+|[a-zA-Z0-9._~/-]*[a-zA-Z0-9-]+\\.[a-zA-Z]{2,}(/[^ \\t\\n]*)?)$";

/// Characters that may open a block other than a paragraph.
pub open spec fn is_block_special(c: char) -> bool {
    c == HASH || c == MINUS || c == BACKTICK || c == PIPE || c == QUOTE_START || c == META_OPEN
}

/// Characters that open an unordered list item.
pub open spec fn is_list_special(c: char) -> bool {
    c == MINUS || c == 'o'
}

/// Characters at which a plain-text run always stops.
pub open spec fn is_inline_special(c: char) -> bool {
    c == LB || c == BACKTICK || c == TILDE || c == UNDERSCR || c == ASTERISK || c == PIPE
}

/// Characters at which a plain-text run stops only after its first character,
/// so that a failed image/url attempt still consumes at least one character.
pub open spec fn is_inline_special_second(c: char) -> bool {
    c == IMG_START || c == DESC_OPEN || c == URL_OPEN
}

pub fn block_special_chars() -> (r: Vec<char>)
    ensures
        forall|c: char| r@.contains(c) <==> is_block_special(c),
{
    let mut v: Vec<char> = Vec::new();
    v.push(HASH);
    v.push(MINUS);
    v.push(BACKTICK);
    v.push(PIPE);
    v.push(QUOTE_START);
    v.push(META_OPEN);
    proof {
        assert(forall|c: char| is_block_special(c) ==> v@.contains(c)) by {
            assert(v@[0] == HASH);
            assert(v@[1] == MINUS);
            assert(v@[2] == BACKTICK);
            assert(v@[3] == PIPE);
            assert(v@[4] == QUOTE_START);
            assert(v@[5] == META_OPEN);
        }
    }
    v
}

pub fn list_special_chars() -> (r: Vec<char>)
    ensures
        forall|c: char| r@.contains(c) <==> is_list_special(c),
{
    let mut v: Vec<char> = Vec::new();
    v.push(MINUS);
    v.push('o');
    proof {
        assert(forall|c: char| is_list_special(c) ==> v@.contains(c)) by {
            assert(v@[0] == MINUS);
            assert(v@[1] == 'o');
        }
    }
    v
}

pub fn inline_special_chars() -> (r: Vec<char>)
    ensures
        forall|c: char| r@.contains(c) <==> is_inline_special(c),
{
    let mut v: Vec<char> = Vec::new();
    v.push(LB);
    v.push(BACKTICK);
    v.push(TILDE);
    v.push(UNDERSCR);
    v.push(ASTERISK);
    v.push(PIPE);
    proof {
        assert(forall|c: char| is_inline_special(c) ==> v@.contains(c)) by {
            assert(v@[0] == LB);
            assert(v@[1] == BACKTICK);
            assert(v@[2] == TILDE);
            assert(v@[3] == UNDERSCR);
            assert(v@[4] == ASTERISK);
            assert(v@[5] == PIPE);
        }
    }
    v
}

pub fn inline_special_chars_second() -> (r: Vec<char>)
    ensures
        forall|c: char| r@.contains(c) <==> is_inline_special_second(c),
{
    let mut v: Vec<char> = Vec::new();
    v.push(IMG_START);
    v.push(DESC_OPEN);
    v.push(URL_OPEN);
    proof {
        assert(forall|c: char| is_inline_special_second(c) ==> v@.contains(c)) by {
            assert(v@[0] == IMG_START);
            assert(v@[1] == DESC_OPEN);
            assert(v@[2] == URL_OPEN);
        }
    }
    v
}


/// The three-backtick fence delimiting a code block.
pub fn code_fence_chars() -> (r: Vec<char>)
    ensures
        r@ == seq![BACKTICK, BACKTICK, BACKTICK],
{
    let mut v: Vec<char> = Vec::new();
    v.push(BACKTICK);
    v.push(BACKTICK);
    v.push(BACKTICK);
    proof {
        assert(v@ =~= seq![BACKTICK, BACKTICK, BACKTICK]);
    }
    v
}


/// A token of the literal tokenizer.
#[derive(Debug, PartialEq)]
pub enum Token {
    Block(BlockToken),
    Line(LineToken),
    Inline(InlineToken),
    Text(TextToken),
}

#[derive(Debug, PartialEq)]
pub enum BlockToken {
    CodeBlock,
    MathBlock,
    H1,
    H2,
    H3,
    H4,
    H5,
    H6,
}

#[derive(Debug, PartialEq)]
pub enum LineToken {
    Ruler,
    Import,
    ListItem(bool),
    Centered,
    Quote,
    Checkbox(bool),
}

#[derive(Debug, PartialEq)]
pub enum InlineToken {
    Italic,
    Bold,
    Underline,
    Striked,
    Super,
    Mono,
    Math,
    Emoji,
    Color,
    ColorReset,
    PlaceholderOpen,
    PlaceholderClose,
    BibRef,
    TableSpacerLeft,
    TableSpacerRight,
    ImageOpen,
}

#[derive(Debug, PartialEq)]
pub enum TextToken {
    Plain(String),
    Indent(u32),
    InlineWhitespace,
    LineBreak,
    Eq,
    Pipe,
    Colon,
    ParenthesesOpen,
    ParenthesesClose,
    BracketsOpen,
    BracketsClose,
    BracesOpen,
    BracesClose,
    SingleString,
    DoubleString,
}

/// A duplicate of a token, equal to the original in value.
pub fn clone_token(t: &Token) -> (r: Token)
    ensures
        r == *t,
{
    match t {
        Token::Block(b) => Token::Block(
            match b {
                BlockToken::CodeBlock => BlockToken::CodeBlock,
                BlockToken::MathBlock => BlockToken::MathBlock,
                BlockToken::H1 => BlockToken::H1,
                BlockToken::H2 => BlockToken::H2,
                BlockToken::H3 => BlockToken::H3,
                BlockToken::H4 => BlockToken::H4,
                BlockToken::H5 => BlockToken::H5,
                BlockToken::H6 => BlockToken::H6,
            },
        ),
        Token::Line(l) => Token::Line(
            match l {
                LineToken::Ruler => LineToken::Ruler,
                LineToken::Import => LineToken::Import,
                LineToken::ListItem(o) => LineToken::ListItem(*o),
                LineToken::Centered => LineToken::Centered,
                LineToken::Quote => LineToken::Quote,
                LineToken::Checkbox(c) => LineToken::Checkbox(*c),
            },
        ),
        Token::Inline(i) => Token::Inline(
            match i {
                InlineToken::Italic => InlineToken::Italic,
                InlineToken::Bold => InlineToken::Bold,
                InlineToken::Underline => InlineToken::Underline,
                InlineToken::Striked => InlineToken::Striked,
                InlineToken::Super => InlineToken::Super,
                InlineToken::Mono => InlineToken::Mono,
                InlineToken::Math => InlineToken::Math,
                InlineToken::Emoji => InlineToken::Emoji,
                InlineToken::Color => InlineToken::Color,
                InlineToken::ColorReset => InlineToken::ColorReset,
                InlineToken::PlaceholderOpen => InlineToken::PlaceholderOpen,
                InlineToken::PlaceholderClose => InlineToken::PlaceholderClose,
                InlineToken::BibRef => InlineToken::BibRef,
                InlineToken::TableSpacerLeft => InlineToken::TableSpacerLeft,
                InlineToken::TableSpacerRight => InlineToken::TableSpacerRight,
                InlineToken::ImageOpen => InlineToken::ImageOpen,
            },
        ),
        Token::Text(x) => Token::Text(
            match x {
                TextToken::Plain(s) => TextToken::Plain(s.clone()),
                TextToken::Indent(n) => TextToken::Indent(*n),
                TextToken::InlineWhitespace => TextToken::InlineWhitespace,
                TextToken::LineBreak => TextToken::LineBreak,
                TextToken::Eq => TextToken::Eq,
                TextToken::Pipe => TextToken::Pipe,
                TextToken::Colon => TextToken::Colon,
                TextToken::ParenthesesOpen => TextToken::ParenthesesOpen,
                TextToken::ParenthesesClose => TextToken::ParenthesesClose,
                TextToken::BracketsOpen => TextToken::BracketsOpen,
                TextToken::BracketsClose => TextToken::BracketsClose,
                TextToken::BracesOpen => TextToken::BracesOpen,
                TextToken::BracesClose => TextToken::BracesClose,
                TextToken::SingleString => TextToken::SingleString,
                TextToken::DoubleString => TextToken::DoubleString,
            },
        ),
    }
}

/// The shape of one mapping entry: its literal alternatives as character
/// sequences, and its token.
pub open spec fn mapping_view(e: (Vec<String>, Token)) -> (Seq<Seq<char>>, Token) {
    (strs_view(e.0@), e.1)
}

pub open spec fn strs_view(s: Seq<String>) -> Seq<Seq<char>>
    decreases s,
{
    if s.len() == 0 {
        Seq::<Seq<char>>::empty()
    } else {
        seq![s[0]@] + strs_view(s.drop_first())
    }
}

pub broadcast proof fn lemma_strs_view_len(s: Seq<String>)
    ensures
        (#[trigger] strs_view(s)).len() == s.len(),
    decreases s,
{
    if s.len() > 0 {
        lemma_strs_view_len(s.drop_first());
    }
}

pub broadcast proof fn lemma_strs_view_index(s: Seq<String>, i: int)
    requires
        0 <= i < s.len(),
    ensures
        #[trigger] strs_view(s)[i] == s[i]@,
    decreases s,
{
    lemma_strs_view_len(s.drop_first());
    if i > 0 {
        lemma_strs_view_index(s.drop_first(), i - 1);
        assert(s.drop_first()[i - 1] == s[i]);
    }
}


pub proof fn lemma_strs_view_push(s: Seq<String>, x: String)
    ensures
        strs_view(s.push(x)) == strs_view(s) + seq![x@],
{
    broadcast use lemma_strs_view_len, lemma_strs_view_index;

    assert(strs_view(s.push(x)) =~= strs_view(s) + seq![x@]);
}

pub open spec fn mappings_view(v: Seq<(Vec<String>, Token)>) -> Seq<(Seq<Seq<char>>, Token)>
    decreases v,
{
    if v.len() == 0 {
        Seq::<(Seq<Seq<char>>, Token)>::empty()
    } else {
        seq![mapping_view(v[0])] + mappings_view(v.drop_first())
    }
}

pub broadcast proof fn lemma_mappings_view_len(v: Seq<(Vec<String>, Token)>)
    ensures
        (#[trigger] mappings_view(v)).len() == v.len(),
    decreases v,
{
    if v.len() > 0 {
        lemma_mappings_view_len(v.drop_first());
    }
}

pub broadcast proof fn lemma_mappings_view_index(v: Seq<(Vec<String>, Token)>, i: int)
    requires
        0 <= i < v.len(),
    ensures
        #[trigger] mappings_view(v)[i] == mapping_view(v[i]),
    decreases v,
{
    lemma_mappings_view_len(v.drop_first());
    if i > 0 {
        lemma_mappings_view_index(v.drop_first(), i - 1);
        assert(v.drop_first()[i - 1] == v[i]);
    }
}

/// The token mapping table: each literal run of characters, in match
/// priority order, with the token it stands for. Longer literals of the
/// same leading character come first.
pub open spec fn spec_mappings() -> Seq<(Seq<Seq<char>>, Token)> {
    seq![
        (seq!["######"@], Token::Block(BlockToken::H6)),
        (seq!["#####"@], Token::Block(BlockToken::H5)),
        (seq!["####"@], Token::Block(BlockToken::H4)),
        (seq!["###"@], Token::Block(BlockToken::H3)),
        (seq!["##"@], Token::Block(BlockToken::H2)),
        (seq!["#"@], Token::Block(BlockToken::H1)),
        (seq!["```"@], Token::Block(BlockToken::CodeBlock)),
        (seq!["$$$"@], Token::Block(BlockToken::MathBlock)),
        (seq!["> "@], Token::Line(LineToken::Quote)),
        (seq!["---"@, "___"@, "- - -"@, "_ _ _ "@], Token::Line(LineToken::Ruler)),
        (seq!["||"@], Token::Line(LineToken::Centered)),
        (seq!["- "@, "o "@], Token::Line(LineToken::ListItem(false))),
        (seq!["<["@], Token::Line(LineToken::Import)),
        (seq!["[x]"@], Token::Line(LineToken::Checkbox(true))),
        (seq!["[ ]"@], Token::Line(LineToken::Checkbox(false))),
        (seq!["**"@], Token::Inline(InlineToken::Bold)),
        (seq!["*"@, "_"@], Token::Inline(InlineToken::Italic)),
        (seq!["`"@], Token::Inline(InlineToken::Mono)),
        (seq!["^"@], Token::Inline(InlineToken::Super)),
        (seq!["~~"@], Token::Inline(InlineToken::Striked)),
        (seq!["__"@], Token::Inline(InlineToken::Underline)),
        (seq!["$$"@], Token::Inline(InlineToken::Math)),
        (seq![":"@], Token::Inline(InlineToken::Emoji)),
        (seq!["\u{a7}["@], Token::Inline(InlineToken::Color)),
        (seq!["\u{a7}[]"@], Token::Inline(InlineToken::ColorReset)),
        (seq!["!["@], Token::Inline(InlineToken::ImageOpen)),
        (seq!["[["@], Token::Inline(InlineToken::PlaceholderOpen)),
        (seq!["]]"@], Token::Inline(InlineToken::PlaceholderClose)),
        (seq!["|--"@], Token::Inline(InlineToken::TableSpacerLeft)),
        (seq!["[^"@], Token::Inline(InlineToken::BibRef)),
        (seq!["--|"@], Token::Inline(InlineToken::TableSpacerRight)),
        (seq![" "@, "\t"@], Token::Text(TextToken::InlineWhitespace)),
        (seq!["\n"@, "\u{15}\n"@], Token::Text(TextToken::LineBreak)),
        (seq!["'"@], Token::Text(TextToken::SingleString)),
        (seq!["\""@], Token::Text(TextToken::DoubleString)),
        (seq!["("@], Token::Text(TextToken::ParenthesesOpen)),
        (seq![")"@], Token::Text(TextToken::ParenthesesClose)),
        (seq!["{"@], Token::Text(TextToken::BracesOpen)),
        (seq!["}"@], Token::Text(TextToken::BracesClose)),
        (seq!["["@], Token::Text(TextToken::BracketsOpen)),
        (seq!["]"@], Token::Text(TextToken::BracketsClose)),
        (seq![":"@], Token::Text(TextToken::Colon)),
        (seq!["="@], Token::Text(TextToken::Eq)),
        (seq!["|"@], Token::Text(TextToken::Pipe)),
    ]
}


/// One literal alternative that the tokenizer may safely probe: nonempty
/// and free of the escape character.
pub open spec fn alt_safe(s: Seq<char>) -> bool {
    s.len() >= 1 && (forall|c: int| 0 <= c < s.len() ==> s[c] != SPECIAL_ESCAPE)
}

pub open spec fn entry_safe(alts: Seq<Seq<char>>) -> bool {
    forall|k: int| 0 <= k < alts.len() ==> alt_safe(#[trigger] alts[k])
}

pub open spec fn mappings_safe(m: Seq<(Seq<Seq<char>>, Token)>) -> bool {
    forall|j: int| 0 <= j < m.len() ==> entry_safe((#[trigger] m[j]).0)
}

fn push_entry1(table: &mut Vec<(Vec<String>, Token)>, a: &str, t: Token)
    requires
        alt_safe(a@),
    ensures
        final(table)@.len() == old(table)@.len() + 1,
        forall|j: int| 0 <= j < old(table)@.len() ==> final(table)@[j] == old(table)@[j],
        mapping_view(final(table)@.last()) == (seq![a@], t),
        entry_safe(mapping_view(final(table)@.last()).0),
{
    let mut alts: Vec<String> = Vec::new();
    alts.push(String::from_str(a));
    proof {
        broadcast use lemma_strs_view_len, lemma_strs_view_index;

        assert(strs_view(alts@) =~= seq![a@]);
    }
    table.push((alts, t));
}

fn push_entry2(table: &mut Vec<(Vec<String>, Token)>, a: &str, b: &str, t: Token)
    requires
        alt_safe(a@),
        alt_safe(b@),
    ensures
        final(table)@.len() == old(table)@.len() + 1,
        forall|j: int| 0 <= j < old(table)@.len() ==> final(table)@[j] == old(table)@[j],
        mapping_view(final(table)@.last()) == (seq![a@, b@], t),
        entry_safe(mapping_view(final(table)@.last()).0),
{
    let mut alts: Vec<String> = Vec::new();
    alts.push(String::from_str(a));
    alts.push(String::from_str(b));
    proof {
        broadcast use lemma_strs_view_len, lemma_strs_view_index;

        assert(strs_view(alts@.drop_first()) =~= seq![b@]);
        assert(strs_view(alts@) =~= seq![a@, b@]);
        assert forall|k: int| 0 <= k < strs_view(alts@).len() implies alt_safe(
            #[trigger] strs_view(alts@)[k],
        ) by {}
    }
    table.push((alts, t));
}

fn push_entry3(table: &mut Vec<(Vec<String>, Token)>, a: &str, b: &str, c: &str, t: Token)
    requires
        alt_safe(a@),
        alt_safe(b@),
        alt_safe(c@),
    ensures
        final(table)@.len() == old(table)@.len() + 1,
        forall|j: int| 0 <= j < old(table)@.len() ==> final(table)@[j] == old(table)@[j],
        mapping_view(final(table)@.last()) == (seq![a@, b@, c@], t),
        entry_safe(mapping_view(final(table)@.last()).0),
{
    let mut alts: Vec<String> = Vec::new();
    alts.push(String::from_str(a));
    alts.push(String::from_str(b));
    alts.push(String::from_str(c));
    proof {
        broadcast use lemma_strs_view_len, lemma_strs_view_index;

        assert(strs_view(alts@.drop_first().drop_first()) =~= seq![c@]);
        assert(strs_view(alts@.drop_first()) =~= seq![b@, c@]);
        assert(strs_view(alts@) =~= seq![a@, b@, c@]);
        assert forall|k: int| 0 <= k < strs_view(alts@).len() implies alt_safe(
            #[trigger] strs_view(alts@)[k],
        ) by {}
    }
    table.push((alts, t));
}

fn push_entry4(
    table: &mut Vec<(Vec<String>, Token)>,
    a: &str,
    b: &str,
    c: &str,
    d: &str,
    t: Token,
)
    requires
        alt_safe(a@),
        alt_safe(b@),
        alt_safe(c@),
        alt_safe(d@),
    ensures
        final(table)@.len() == old(table)@.len() + 1,
        forall|j: int| 0 <= j < old(table)@.len() ==> final(table)@[j] == old(table)@[j],
        mapping_view(final(table)@.last()) == (seq![a@, b@, c@, d@], t),
        entry_safe(mapping_view(final(table)@.last()).0),
{
    let mut alts: Vec<String> = Vec::new();
    alts.push(String::from_str(a));
    alts.push(String::from_str(b));
    alts.push(String::from_str(c));
    alts.push(String::from_str(d));
    proof {
        broadcast use lemma_strs_view_len, lemma_strs_view_index;

        assert(strs_view(alts@.drop_first().drop_first().drop_first()) =~= seq![d@]);
        assert(strs_view(alts@.drop_first().drop_first()) =~= seq![c@, d@]);
        assert(strs_view(alts@.drop_first()) =~= seq![b@, c@, d@]);
        assert(strs_view(alts@) =~= seq![a@, b@, c@, d@]);
        assert forall|k: int| 0 <= k < strs_view(alts@).len() implies alt_safe(
            #[trigger] strs_view(alts@)[k],
        ) by {}
    }
    table.push((alts, t));
}

/// Builds the token mapping table; its shape is exactly [`spec_mappings`],
/// and every literal is safe to probe.
#[verifier::rlimit(100)]
pub fn get_mappings() -> (r: Vec<(Vec<String>, Token)>)
    ensures
        mappings_view(r@) == spec_mappings(),
        mappings_safe(spec_mappings()),
{
    broadcast use lemma_mappings_view_len, lemma_mappings_view_index;

    let mut table: Vec<(Vec<String>, Token)> = Vec::new();
    proof {
        reveal_strlit("######");
        assert(alt_safe("######"@));
    }
    push_entry1(&mut table, "######", Token::Block(BlockToken::H6));
    proof {
        reveal_strlit("#####");
        assert(alt_safe("#####"@));
    }
    push_entry1(&mut table, "#####", Token::Block(BlockToken::H5));
    proof {
        reveal_strlit("####");
        assert(alt_safe("####"@));
    }
    push_entry1(&mut table, "####", Token::Block(BlockToken::H4));
    proof {
        reveal_strlit("###");
        assert(alt_safe("###"@));
    }
    push_entry1(&mut table, "###", Token::Block(BlockToken::H3));
    proof {
        reveal_strlit("##");
        assert(alt_safe("##"@));
    }
    push_entry1(&mut table, "##", Token::Block(BlockToken::H2));
    proof {
        reveal_strlit("#");
        assert(alt_safe("#"@));
    }
    push_entry1(&mut table, "#", Token::Block(BlockToken::H1));
    proof {
        reveal_strlit("```");
        assert(alt_safe("```"@));
    }
    push_entry1(&mut table, "```", Token::Block(BlockToken::CodeBlock));
    proof {
        reveal_strlit("$$$");
        assert(alt_safe("$$$"@));
    }
    push_entry1(&mut table, "$$$", Token::Block(BlockToken::MathBlock));
    proof {
        reveal_strlit("> ");
        assert(alt_safe("> "@));
    }
    push_entry1(&mut table, "> ", Token::Line(LineToken::Quote));
    proof {
        reveal_strlit("---");
        reveal_strlit("___");
        reveal_strlit("- - -");
        reveal_strlit("_ _ _ ");
        assert(alt_safe("---"@));
        assert(alt_safe("___"@));
        assert(alt_safe("- - -"@));
        assert(alt_safe("_ _ _ "@));
    }
    push_entry4(&mut table, "---", "___", "- - -", "_ _ _ ", Token::Line(LineToken::Ruler));
    proof {
        reveal_strlit("||");
        assert(alt_safe("||"@));
    }
    push_entry1(&mut table, "||", Token::Line(LineToken::Centered));
    proof {
        reveal_strlit("- ");
        reveal_strlit("o ");
        assert(alt_safe("- "@));
        assert(alt_safe("o "@));
    }
    push_entry2(&mut table, "- ", "o ", Token::Line(LineToken::ListItem(false)));
    proof {
        reveal_strlit("<[");
        assert(alt_safe("<["@));
    }
    push_entry1(&mut table, "<[", Token::Line(LineToken::Import));
    proof {
        reveal_strlit("[x]");
        assert(alt_safe("[x]"@));
    }
    push_entry1(&mut table, "[x]", Token::Line(LineToken::Checkbox(true)));
    proof {
        reveal_strlit("[ ]");
        assert(alt_safe("[ ]"@));
    }
    push_entry1(&mut table, "[ ]", Token::Line(LineToken::Checkbox(false)));
    proof {
        reveal_strlit("**");
        assert(alt_safe("**"@));
    }
    push_entry1(&mut table, "**", Token::Inline(InlineToken::Bold));
    proof {
        reveal_strlit("*");
        reveal_strlit("_");
        assert(alt_safe("*"@));
        assert(alt_safe("_"@));
    }
    push_entry2(&mut table, "*", "_", Token::Inline(InlineToken::Italic));
    proof {
        reveal_strlit("`");
        assert(alt_safe("`"@));
    }
    push_entry1(&mut table, "`", Token::Inline(InlineToken::Mono));
    proof {
        reveal_strlit("^");
        assert(alt_safe("^"@));
    }
    push_entry1(&mut table, "^", Token::Inline(InlineToken::Super));
    proof {
        reveal_strlit("~~");
        assert(alt_safe("~~"@));
    }
    push_entry1(&mut table, "~~", Token::Inline(InlineToken::Striked));
    proof {
        reveal_strlit("__");
        assert(alt_safe("__"@));
    }
    push_entry1(&mut table, "__", Token::Inline(InlineToken::Underline));
    proof {
        reveal_strlit("$$");
        assert(alt_safe("$$"@));
    }
    push_entry1(&mut table, "$$", Token::Inline(InlineToken::Math));
    proof {
        reveal_strlit(":");
        assert(alt_safe(":"@));
    }
    push_entry1(&mut table, ":", Token::Inline(InlineToken::Emoji));
    proof {
        reveal_strlit("\u{a7}[");
        assert(alt_safe("\u{a7}["@));
    }
    push_entry1(&mut table, "\u{a7}[", Token::Inline(InlineToken::Color));
    proof {
        reveal_strlit("\u{a7}[]");
        assert(alt_safe("\u{a7}[]"@));
    }
    push_entry1(&mut table, "\u{a7}[]", Token::Inline(InlineToken::ColorReset));
    proof {
        reveal_strlit("![");
        assert(alt_safe("!["@));
    }
    push_entry1(&mut table, "![", Token::Inline(InlineToken::ImageOpen));
    proof {
        reveal_strlit("[[");
        assert(alt_safe("[["@));
    }
    push_entry1(&mut table, "[[", Token::Inline(InlineToken::PlaceholderOpen));
    proof {
        reveal_strlit("]]");
        assert(alt_safe("]]"@));
    }
    push_entry1(&mut table, "]]", Token::Inline(InlineToken::PlaceholderClose));
    proof {
        reveal_strlit("|--");
        assert(alt_safe("|--"@));
    }
    push_entry1(&mut table, "|--", Token::Inline(InlineToken::TableSpacerLeft));
    proof {
        reveal_strlit("[^");
        assert(alt_safe("[^"@));
    }
    push_entry1(&mut table, "[^", Token::Inline(InlineToken::BibRef));
    proof {
        reveal_strlit("--|");
        assert(alt_safe("--|"@));
    }
    push_entry1(&mut table, "--|", Token::Inline(InlineToken::TableSpacerRight));
    proof {
        reveal_strlit(" ");
        reveal_strlit("\t");
        assert(alt_safe(" "@));
        assert(alt_safe("\t"@));
    }
    push_entry2(&mut table, " ", "\t", Token::Text(TextToken::InlineWhitespace));
    proof {
        reveal_strlit("\n");
        reveal_strlit("\u{15}\n");
        assert(alt_safe("\n"@));
        assert(alt_safe("\u{15}\n"@));
    }
    push_entry2(&mut table, "\n", "\u{15}\n", Token::Text(TextToken::LineBreak));
    proof {
        reveal_strlit("'");
        assert(alt_safe("'"@));
    }
    push_entry1(&mut table, "'", Token::Text(TextToken::SingleString));
    proof {
        reveal_strlit("\"");
        assert(alt_safe("\""@));
    }
    push_entry1(&mut table, "\"", Token::Text(TextToken::DoubleString));
    proof {
        reveal_strlit("(");
        assert(alt_safe("("@));
    }
    push_entry1(&mut table, "(", Token::Text(TextToken::ParenthesesOpen));
    proof {
        reveal_strlit(")");
        assert(alt_safe(")"@));
    }
    push_entry1(&mut table, ")", Token::Text(TextToken::ParenthesesClose));
    proof {
        reveal_strlit("{");
        assert(alt_safe("{"@));
    }
    push_entry1(&mut table, "{", Token::Text(TextToken::BracesOpen));
    proof {
        reveal_strlit("}");
        assert(alt_safe("}"@));
    }
    push_entry1(&mut table, "}", Token::Text(TextToken::BracesClose));
    proof {
        reveal_strlit("[");
        assert(alt_safe("["@));
    }
    push_entry1(&mut table, "[", Token::Text(TextToken::BracketsOpen));
    proof {
        reveal_strlit("]");
        assert(alt_safe("]"@));
    }
    push_entry1(&mut table, "]", Token::Text(TextToken::BracketsClose));
    proof {
        reveal_strlit(":");
        assert(alt_safe(":"@));
    }
    push_entry1(&mut table, ":", Token::Text(TextToken::Colon));
    proof {
        reveal_strlit("=");
        assert(alt_safe("="@));
    }
    push_entry1(&mut table, "=", Token::Text(TextToken::Eq));
    proof {
        reveal_strlit("|");
        assert(alt_safe("|"@));
    }
    push_entry1(&mut table, "|", Token::Text(TextToken::Pipe));
    proof {
        assert(mappings_view(table@) =~= spec_mappings());
        assert forall|j: int| 0 <= j < spec_mappings().len() implies entry_safe(
            (#[trigger] spec_mappings()[j]).0,
        ) by {
            assert(spec_mappings()[j] == mappings_view(table@)[j]);
            assert(mappings_view(table@)[j] == mapping_view(table@[j]));
        }
    }
    table
}

} // verus!

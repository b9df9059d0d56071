//! The document tree model: blocks, lines and inline spans, together with
//! the small collaborator types the tree refers to.
use vstd::prelude::*;

verus! {

broadcast use crate::tokens::lemma_strs_view_len, crate::tokens::lemma_strs_view_index;

/// A value held under a metadata key.
#[derive(Debug, PartialEq)]
pub enum MetadataValue {
    String(String),
    Integer(i64),
    Bool(bool),
    Placeholder(Box<Placeholder>),
    Template(Template),
}

/// Any node of the tree.
#[derive(Debug, PartialEq)]
pub enum Element {
    Block(Box<Block>),
    Line(Box<Line>),
    Inline(Box<Inline>),
}

/// A block-level node.
#[derive(Debug, PartialEq)]
pub enum Block {
    Section(Section),
    Paragraph(Paragraph),
    List(List),
    Table(Table),
    CodeBlock(CodeBlock),
    MathBlock(MathBlock),
    Quote(Quote),
    Import(Import),
    Placeholder(Placeholder),
}

/// A line-level node.
#[derive(Debug, PartialEq)]
pub enum Line {
    Text(TextLine),
    Ruler(Ruler),
    Anchor(Anchor),
    Centered(Centered),
    BibEntry(BibEntry),
}

/// An inline span; the formatting variants wrap one nested span, so spans
/// nest arbitrarily.
#[derive(Debug, PartialEq)]
pub enum Inline {
    Plain(PlainText),
    Bold(BoldText),
    Italic(ItalicText),
    Underlined(UnderlinedText),
    Striked(StrikedText),
    Monospace(MonospaceText),
    Superscript(SuperscriptText),
    Url(Url),
    Image(Image),
    Placeholder(Placeholder),
    Checkbox(Checkbox),
    Emoji(Emoji),
    Colored(Colored),
    Math(Math),
    BibReference(BibReference),
    TemplateVar(TemplateVariable),
}

/// A full document: its blocks in order, whether it is the root, and the
/// registries that finalization reads.
#[derive(Debug, PartialEq)]
pub struct Document {
    pub elements: Vec<Block>,
    pub is_root: bool,
    pub path: Option<String>,
    pub placeholders: Vec<Placeholder>,
    pub config: Configuration,
    pub bibliography: Bibliography,
}

#[derive(Debug, PartialEq)]
pub struct Section {
    pub header: Header,
    pub elements: Vec<Block>,
    pub metadata: Option<InlineMetadata>,
}

#[derive(Debug, PartialEq)]
pub struct Header {
    pub size: u8,
    pub line: Line,
    pub anchor: String,
}

#[derive(Debug, PartialEq)]
pub struct Paragraph {
    pub elements: Vec<Line>,
}

#[derive(Debug, PartialEq)]
pub struct List {
    pub ordered: bool,
    pub items: Vec<ListItem>,
}

#[derive(Debug, PartialEq)]
pub struct ListItem {
    pub text: Line,
    pub level: u16,
    pub ordered: bool,
    pub children: Vec<ListItem>,
}

#[derive(Debug, PartialEq)]
pub struct Table {
    pub header: Row,
    pub rows: Vec<Row>,
}

#[derive(Debug, PartialEq)]
pub struct Row {
    pub cells: Vec<Cell>,
}

#[derive(Debug, PartialEq)]
pub struct Cell {
    pub text: Line,
}

#[derive(Debug, PartialEq)]
pub struct CodeBlock {
    pub language: String,
    pub code: String,
}

#[derive(Debug, PartialEq)]
pub struct Quote {
    pub metadata: Option<InlineMetadata>,
    pub text: Vec<TextLine>,
}

/// An import site: the path of the imported file and the anchor its parsed
/// content is handed into before the flattening pass consumes it.
#[derive(Debug, PartialEq)]
pub struct Import {
    pub path: String,
    pub anchor: ImportAnchor,
}

/// The splice buffer of an import: holds the imported document once the
/// out-of-band parse of that file has delivered it.
#[derive(Debug, PartialEq)]
pub struct ImportAnchor {
    pub document: Option<Box<Document>>,
}

/// Brace-delimited metadata, kept as raw text at this layer.
#[derive(Debug, PartialEq)]
pub struct InlineMetadata {
    pub data: String,
}

#[derive(Debug, PartialEq)]
pub struct Ruler {
}

#[derive(Debug, PartialEq)]
pub struct TextLine {
    pub subtext: Vec<Inline>,
}

#[derive(Debug, PartialEq)]
pub struct PlainText {
    pub value: String,
}

#[derive(Debug, PartialEq)]
pub struct BoldText {
    pub value: Box<Inline>,
}

#[derive(Debug, PartialEq)]
pub struct ItalicText {
    pub value: Box<Inline>,
}

#[derive(Debug, PartialEq)]
pub struct UnderlinedText {
    pub value: Box<Inline>,
}

#[derive(Debug, PartialEq)]
pub struct StrikedText {
    pub value: Box<Inline>,
}

#[derive(Debug, PartialEq)]
pub struct MonospaceText {
    pub value: PlainText,
}

#[derive(Debug, PartialEq)]
pub struct SuperscriptText {
    pub value: Box<Inline>,
}

#[derive(Debug, PartialEq)]
pub struct Checkbox {
    pub value: bool,
}

#[derive(Debug, PartialEq)]
pub struct Url {
    pub description: Option<String>,
    pub url: String,
}

#[derive(Debug, PartialEq)]
pub struct Image {
    pub url: Url,
    pub metadata: Option<InlineMetadata>,
}

/// A named placeholder whose value is substituted at finalization.
#[derive(Debug, PartialEq)]
pub struct Placeholder {
    pub name: String,
    pub value: Option<Element>,
    pub metadata: Option<InlineMetadata>,
}

/// A link target derived from a section header.
#[derive(Debug, PartialEq)]
pub struct Anchor {
    pub description: Box<Line>,
    pub reference: String,
}

#[derive(Debug, PartialEq)]
pub struct Centered {
    pub line: TextLine,
}

#[derive(Debug, PartialEq)]
pub struct Emoji {
    pub value: char,
    pub name: String,
}

#[derive(Debug, PartialEq)]
pub struct Colored {
    pub value: Box<Inline>,
    pub color: String,
}

/// An inline math span; the expression itself is produced and rendered by
/// the math collaborator and is opaque here.
#[derive(Debug, PartialEq)]
pub struct Math {
    pub expression: asciimath_rs::elements::special::Expression,
}

/// A math block; see [`Math`].
#[derive(Debug, PartialEq)]
pub struct MathBlock {
    pub expression: asciimath_rs::elements::special::Expression,
}

/// A bibliography entry, reduced here to its citation key; entry data is
/// assigned by the reference-resolution collaborator.
#[derive(Debug, PartialEq)]
pub struct BibEntry {
    pub key: String,
}

/// A citation of a bibliography entry.
#[derive(Debug, PartialEq)]
pub struct BibReference {
    pub key: String,
}

/// A template variable; substitution semantics live in a collaborator.
#[derive(Debug, PartialEq)]
pub struct TemplateVariable {
    pub name: String,
}

#[derive(Debug, PartialEq)]
pub struct Template {
    pub name: String,
}

/// Parser configuration; read-only for this crate.
#[derive(Debug, PartialEq)]
pub struct Configuration {
}

impl Default for Configuration {
    fn default() -> (r: Self)
        ensures
            r == (Configuration {  }),
    {
        Configuration {  }
    }
}

/// The ordered bibliography entries of one document.
#[derive(Debug, PartialEq)]
pub struct Bibliography {
    pub entries: Vec<BibEntry>,
}

impl Bibliography {
    pub fn new() -> (r: Self)
        ensures
            r.entries@ == Seq::<BibEntry>::empty(),
    {
        Bibliography { entries: Vec::new() }
    }

    /// Drains the entries of `other` onto the end of this bibliography,
    /// keeping both orders.
    pub fn combine(&mut self, other: &mut Bibliography)
        ensures
            final(self).entries@ == old(self).entries@ + old(other).entries@,
            final(other).entries@ == Seq::<BibEntry>::empty(),
    {
        self.entries.append(&mut other.entries);
    }
}

impl Document {
    pub fn new(is_root: bool) -> (r: Self)
        ensures
            r.elements@ == Seq::<Block>::empty(),
            r.is_root == is_root,
            r.path is None,
            r.placeholders@ == Seq::<Placeholder>::empty(),
            r.config == (Configuration {  }),
            r.bibliography.entries@ == Seq::<BibEntry>::empty(),
    {
        Document {
            elements: Vec::new(),
            is_root,
            path: None,
            placeholders: Vec::new(),
            config: Configuration::default(),
            bibliography: Bibliography::new(),
        }
    }

    pub fn add_element(&mut self, element: Block)
        ensures
            final(self).elements@ == old(self).elements@.push(element),
            final(self).is_root == old(self).is_root,
            final(self).path == old(self).path,
            final(self).placeholders == old(self).placeholders,
            final(self).config == old(self).config,
            final(self).bibliography == old(self).bibliography,
    {
        self.elements.push(element)
    }

    pub fn add_placeholder(&mut self, placeholder: Placeholder)
        ensures
            final(self).placeholders@ == old(self).placeholders@.push(placeholder),
            final(self).elements == old(self).elements,
            final(self).is_root == old(self).is_root,
            final(self).path == old(self).path,
            final(self).config == old(self).config,
            final(self).bibliography == old(self).bibliography,
    {
        self.placeholders.push(placeholder)
    }
}

impl Section {
    pub fn new(header: Header) -> (r: Self)
        ensures
            r.header == header,
            r.elements@ == Seq::<Block>::empty(),
            r.metadata is None,
    {
        Section { header, elements: Vec::new(), metadata: None }
    }

    pub fn add_element(&mut self, element: Block)
        ensures
            final(self).elements@ == old(self).elements@.push(element),
            final(self).header == old(self).header,
            final(self).metadata == old(self).metadata,
    {
        self.elements.push(element)
    }
}

impl Header {
    pub fn new(content: Line, anchor: String) -> (r: Self)
        ensures
            r.size == 0,
            r.line == content,
            r.anchor == anchor,
    {
        Header { size: 0, anchor, line: content }
    }

    pub fn get_anchor(&self) -> (r: Anchor)
        ensures
            line_view(*r.description) == line_view(self.line),
            r.reference == self.anchor,
    {
        Anchor { description: Box::new(clone_line(&self.line)), reference: self.anchor.clone() }
    }
}

impl Paragraph {
    pub fn new() -> (r: Self)
        ensures
            r.elements@ == Seq::<Line>::empty(),
    {
        Paragraph { elements: Vec::new() }
    }

    pub fn add_element(&mut self, element: Line)
        ensures
            final(self).elements@ == old(self).elements@.push(element),
    {
        self.elements.push(element)
    }
}

impl List {
    pub fn new() -> (r: Self)
        ensures
            r.ordered == false,
            r.items@ == Seq::<ListItem>::empty(),
    {
        List { ordered: false, items: Vec::new() }
    }

    pub fn add_item(&mut self, item: ListItem)
        ensures
            final(self).items@ == old(self).items@.push(item),
            final(self).ordered == old(self).ordered,
    {
        self.items.push(item)
    }
}

impl ListItem {
    pub fn new(text: Line, level: u16, ordered: bool) -> (r: Self)
        ensures
            r.text == text,
            r.level == level,
            r.ordered == ordered,
            r.children@ == Seq::<ListItem>::empty(),
    {
        ListItem { text, level, ordered, children: Vec::new() }
    }

    pub fn add_child(&mut self, child: ListItem)
        ensures
            final(self).children@ == old(self).children@.push(child),
            final(self).text == old(self).text,
            final(self).level == old(self).level,
            final(self).ordered == old(self).ordered,
    {
        self.children.push(child)
    }
}

impl TextLine {
    pub fn new() -> (r: Self)
        ensures
            r.subtext@ == Seq::<Inline>::empty(),
    {
        TextLine { subtext: Vec::new() }
    }

    pub fn add_subtext(&mut self, subtext: Inline)
        ensures
            final(self).subtext@ == old(self).subtext@.push(subtext),
    {
        self.subtext.push(subtext)
    }
}

impl Table {
    pub fn new(header: Row) -> (r: Self)
        ensures
            r.header == header,
            r.rows@ == Seq::<Row>::empty(),
    {
        Table { header, rows: Vec::new() }
    }

    pub fn add_row(&mut self, row: Row)
        ensures
            final(self).rows@ == old(self).rows@.push(row),
            final(self).header == old(self).header,
    {
        self.rows.push(row)
    }
}

impl Row {
    pub fn new() -> (r: Self)
        ensures
            r.cells@ == Seq::<Cell>::empty(),
    {
        Row { cells: Vec::new() }
    }

    pub fn add_cell(&mut self, cell: Cell)
        ensures
            final(self).cells@ == old(self).cells@.push(cell),
    {
        self.cells.push(cell)
    }
}

impl Url {
    pub fn new(description: Option<String>, url: String) -> (r: Self)
        ensures
            r.description == description,
            r.url == url,
    {
        Url { description, url }
    }
}

impl Quote {
    pub fn new(metadata: Option<InlineMetadata>) -> (r: Self)
        ensures
            r.metadata == metadata,
            r.text@ == Seq::<TextLine>::empty(),
    {
        Quote { metadata, text: Vec::new() }
    }

    pub fn add_text(&mut self, text: TextLine)
        ensures
            final(self).text@ == old(self).text@.push(text),
            final(self).metadata == old(self).metadata,
    {
        self.text.push(text)
    }
}

impl ImportAnchor {
    pub fn new() -> (r: Self)
        ensures
            r.document is None,
    {
        ImportAnchor { document: None }
    }

    /// Hands the parsed imported document to the anchor. The document of an
    /// anchor is set at most once: a second delivery is refused here.
    pub fn set_document(&mut self, document: Document)
        requires
            old(self).document is None,
        ensures
            final(self).document == Some(Box::new(document)),
    {
        self.document = Some(Box::new(document));
    }
}

impl Placeholder {
    pub fn new(name: String, metadata: Option<InlineMetadata>) -> (r: Self)
        ensures
            r.name == name,
            r.value is None,
            r.metadata == metadata,
    {
        Placeholder { name, value: None, metadata }
    }

    pub fn set_value(&mut self, value: Element)
        ensures
            final(self).value == Some(value),
            final(self).name == old(self).name,
            final(self).metadata == old(self).metadata,
    {
        self.value = Some(value);
    }
}




/// The mathematical shape of a block, as the structural passes see it: a
/// section with the shapes of its children, an import with its path and
/// the shape of its resolved document, and any other block as an opaque
/// leaf value.
pub enum BlockV {
    Section { header: Header, metadata: Option<InlineMetadata>, children: Seq<BlockV> },
    Import { path: Seq<char>, doc: Option<DocV> },
    Leaf(Block),
}

/// The shape of a resolved imported document: what the flattening pass
/// consumes of it.
pub struct DocV {
    pub children: Seq<BlockV>,
    pub placeholders: Seq<Placeholder>,
    pub bib: Seq<BibEntry>,
}

pub open spec fn block_view(b: Block) -> BlockV
    decreases b,
{
    match b {
        Block::Section(s) => BlockV::Section {
            header: s.header,
            metadata: s.metadata,
            children: blocks_view(s.elements@),
        },
        Block::Import(imp) => BlockV::Import {
            path: imp.path@,
            doc: match imp.anchor.document {
                Some(d) => Some(doc_view(*d)),
                None => None,
            },
        },
        other => BlockV::Leaf(other),
    }
}

pub open spec fn blocks_view(s: Seq<Block>) -> Seq<BlockV>
    decreases s,
{
    if s.len() == 0 {
        Seq::<BlockV>::empty()
    } else {
        seq![block_view(s[0])] + blocks_view(s.drop_first())
    }
}

pub open spec fn doc_view(d: Document) -> DocV
    decreases d,
{
    DocV {
        children: blocks_view(d.elements@),
        placeholders: d.placeholders@,
        bib: d.bibliography.entries@,
    }
}

/// The shape of a section, as a block shape.
pub open spec fn sec_view(s: Section) -> BlockV {
    block_view(Block::Section(s))
}

/// The shape of a run of blocks has one entry per block.
pub broadcast proof fn lemma_blocks_view_len(s: Seq<Block>)
    ensures
        (#[trigger] blocks_view(s)).len() == s.len(),
    decreases s,
{
    if s.len() > 0 {
        lemma_blocks_view_len(s.drop_first());
    }
}

/// The shape of a run of blocks is taken block by block.
pub broadcast proof fn lemma_blocks_view_index(s: Seq<Block>, i: int)
    requires
        0 <= i < s.len(),
    ensures
        #[trigger] blocks_view(s)[i] == block_view(s[i]),
    decreases s,
{
    lemma_blocks_view_len(s.drop_first());
    if i > 0 {
        lemma_blocks_view_index(s.drop_first(), i - 1);
        assert(s.drop_first()[i - 1] == s[i]);
    }
}


/// The mathematical shape of a list item: its indentation level, its
/// line's spans, whether it is ordered, and its child items.
pub struct ListItemV {
    pub level: int,
    pub line: Seq<InlineV>,
    pub ordered: bool,
    pub children: Seq<ListItemV>,
}

pub open spec fn item_view(it: ListItem) -> ListItemV
    decreases it,
{
    ListItemV {
        level: it.level as int,
        line: match it.text {
            Line::Text(tl) => text_line_view(tl),
            _ => Seq::<InlineV>::empty(),
        },
        ordered: it.ordered,
        children: items_view(it.children@),
    }
}

pub open spec fn items_view(s: Seq<ListItem>) -> Seq<ListItemV>
    decreases s,
{
    if s.len() == 0 {
        Seq::<ListItemV>::empty()
    } else {
        seq![item_view(s[0])] + items_view(s.drop_first())
    }
}

pub broadcast proof fn lemma_items_view_len(s: Seq<ListItem>)
    ensures
        (#[trigger] items_view(s)).len() == s.len(),
    decreases s,
{
    if s.len() > 0 {
        lemma_items_view_len(s.drop_first());
    }
}

pub broadcast proof fn lemma_items_view_index(s: Seq<ListItem>, i: int)
    requires
        0 <= i < s.len(),
    ensures
        #[trigger] items_view(s)[i] == item_view(s[i]),
    decreases s,
{
    lemma_items_view_len(s.drop_first());
    if i > 0 {
        lemma_items_view_index(s.drop_first(), i - 1);
        assert(s.drop_first()[i - 1] == s[i]);
    }
}

/// The mathematical shape of an inline span: strings as character
/// sequences, nesting as in the tree. A math expression is carried opaquely,
/// and the resolved value of a placeholder, which only finalization writes,
/// is not part of the shape.
pub enum InlineV {
    Plain(Seq<char>),
    Bold(Box<InlineV>),
    Italic(Box<InlineV>),
    Underlined(Box<InlineV>),
    Striked(Box<InlineV>),
    Monospace(Seq<char>),
    Superscript(Box<InlineV>),
    Url(Option<Seq<char>>, Seq<char>),
    Image(Option<Seq<char>>, Seq<char>, Option<Seq<char>>),
    Placeholder(Seq<char>, Option<Seq<char>>),
    Checkbox(bool),
    Emoji(char, Seq<char>),
    Colored(Box<InlineV>, Seq<char>),
    Math(asciimath_rs::elements::special::Expression),
    BibReference(Seq<char>),
    TemplateVar(Seq<char>),
}

/// The mathematical shape of a line.
pub enum LineV {
    Text(Seq<InlineV>),
    Ruler,
    Anchor(Box<LineV>, Seq<char>),
    Centered(Seq<InlineV>),
    BibEntry(Seq<char>),
}

pub open spec fn meta_opt_view(m: Option<InlineMetadata>) -> Option<Seq<char>> {
    match m {
        Some(x) => Some(x.data@),
        None => None,
    }
}

pub open spec fn opt_str_view(s: Option<String>) -> Option<Seq<char>> {
    match s {
        Some(x) => Some(x@),
        None => None,
    }
}

pub open spec fn inline_view(s: Inline) -> InlineV
    decreases s,
{
    match s {
        Inline::Plain(p) => InlineV::Plain(p.value@),
        Inline::Bold(b) => InlineV::Bold(Box::new(inline_view(*b.value))),
        Inline::Italic(b) => InlineV::Italic(Box::new(inline_view(*b.value))),
        Inline::Underlined(b) => InlineV::Underlined(Box::new(inline_view(*b.value))),
        Inline::Striked(b) => InlineV::Striked(Box::new(inline_view(*b.value))),
        Inline::Monospace(m) => InlineV::Monospace(m.value.value@),
        Inline::Superscript(b) => InlineV::Superscript(Box::new(inline_view(*b.value))),
        Inline::Url(u) => InlineV::Url(opt_str_view(u.description), u.url@),
        Inline::Image(i) => InlineV::Image(
            opt_str_view(i.url.description),
            i.url.url@,
            meta_opt_view(i.metadata),
        ),
        Inline::Placeholder(p) => InlineV::Placeholder(p.name@, meta_opt_view(p.metadata)),
        Inline::Checkbox(c) => InlineV::Checkbox(c.value),
        Inline::Emoji(e) => InlineV::Emoji(e.value, e.name@),
        Inline::Colored(c) => InlineV::Colored(Box::new(inline_view(*c.value)), c.color@),
        Inline::Math(m) => InlineV::Math(m.expression),
        Inline::BibReference(b) => InlineV::BibReference(b.key@),
        Inline::TemplateVar(t) => InlineV::TemplateVar(t.name@),
    }
}

pub open spec fn text_line_view(t: TextLine) -> Seq<InlineV> {
    t.subtext@.map(|j: int, s: Inline| inline_view(s))
}

pub open spec fn line_view(l: Line) -> LineV
    decreases l,
{
    match l {
        Line::Text(t) => LineV::Text(text_line_view(t)),
        Line::Ruler(_) => LineV::Ruler,
        Line::Anchor(a) => LineV::Anchor(Box::new(line_view(*a.description)), a.reference@),
        Line::Centered(c) => LineV::Text(text_line_view(c.line)),
        Line::BibEntry(b) => LineV::BibEntry(b.key@),
    }
}

/// A duplicate of a line, with the same mathematical shape.
pub fn clone_line(l: &Line) -> (r: Line)
    ensures
        line_view(r) == line_view(*l),
    decreases *l,
{
    match l {
        Line::Text(t) => Line::Text(clone_text_line(t)),
        Line::Ruler(_) => Line::Ruler(Ruler {  }),
        Line::Anchor(a) => Line::Anchor(
            Anchor { description: Box::new(clone_line(&a.description)), reference: a.reference.clone() },
        ),
        Line::Centered(c) => Line::Centered(Centered { line: clone_text_line(&c.line) }),
        Line::BibEntry(b) => Line::BibEntry(BibEntry { key: b.key.clone() }),
    }
}

/// A duplicate of a text line, with the same mathematical shape.
pub fn clone_text_line(t: &TextLine) -> (r: TextLine)
    ensures
        text_line_view(r) == text_line_view(*t),
    decreases *t,
{
    let mut subtext: Vec<Inline> = Vec::new();
    let mut i: usize = 0;
    while i < t.subtext.len()
        invariant
            i <= t.subtext@.len(),
            subtext@.len() == i,
            forall|j: int|
                0 <= j < i ==> inline_view(#[trigger] subtext@[j]) == inline_view(t.subtext@[j]),
        decreases t.subtext@.len() - i,
    {
        subtext.push(clone_inline(&t.subtext[i]));
        i += 1;
    }
    let r = TextLine { subtext };
    proof {
        assert(text_line_view(r) =~= text_line_view(*t));
    }
    r
}

/// A duplicate of an inline span, with the same mathematical shape.
pub fn clone_inline(s: &Inline) -> (r: Inline)
    ensures
        inline_view(r) == inline_view(*s),
    decreases *s,
{
    match s {
        Inline::Plain(p) => Inline::Plain(PlainText { value: p.value.clone() }),
        Inline::Bold(b) => Inline::Bold(BoldText { value: Box::new(clone_inline(&b.value)) }),
        Inline::Italic(b) => Inline::Italic(ItalicText { value: Box::new(clone_inline(&b.value)) }),
        Inline::Underlined(b) => Inline::Underlined(
            UnderlinedText { value: Box::new(clone_inline(&b.value)) },
        ),
        Inline::Striked(b) => Inline::Striked(StrikedText { value: Box::new(clone_inline(&b.value)) }),
        Inline::Monospace(m) => Inline::Monospace(
            MonospaceText { value: PlainText { value: m.value.value.clone() } },
        ),
        Inline::Superscript(b) => Inline::Superscript(
            SuperscriptText { value: Box::new(clone_inline(&b.value)) },
        ),
        Inline::Url(u) => Inline::Url(clone_url(u)),
        Inline::Image(im) => Inline::Image(
            Image { url: clone_url(&im.url), metadata: clone_metadata_opt(&im.metadata) },
        ),
        Inline::Placeholder(p) => Inline::Placeholder(clone_placeholder(p)),
        Inline::Checkbox(c) => Inline::Checkbox(Checkbox { value: c.value }),
        Inline::Emoji(e) => Inline::Emoji(Emoji { value: e.value, name: e.name.clone() }),
        Inline::Colored(c) => Inline::Colored(
            Colored { value: Box::new(clone_inline(&c.value)), color: c.color.clone() },
        ),
        Inline::Math(m) => Inline::Math(Math { expression: m.expression.clone() }),
        Inline::BibReference(b) => Inline::BibReference(BibReference { key: b.key.clone() }),
        Inline::TemplateVar(t) => Inline::TemplateVar(TemplateVariable { name: t.name.clone() }),
    }
}

/// A duplicate of a link, equal to the original in value.
pub fn clone_url(u: &Url) -> (r: Url)
    ensures
        r == *u,
{
    let description = match &u.description {
        Some(d) => Some(d.clone()),
        None => None,
    };
    Url { description, url: u.url.clone() }
}

/// A duplicate of optional metadata, equal to the original in value.
pub fn clone_metadata_opt(m: &Option<InlineMetadata>) -> (r: Option<InlineMetadata>)
    ensures
        r == *m,
{
    match m {
        Some(im) => Some(InlineMetadata { data: im.data.clone() }),
        None => None,
    }
}

/// A duplicate of a placeholder without its resolved value, which only
/// finalization fills; the duplicate of an unresolved placeholder is equal
/// to the original.
pub fn clone_placeholder(p: &Placeholder) -> (r: Placeholder)
    ensures
        p.value is None ==> r == *p,
        r.name == p.name,
        r.metadata == p.metadata,
        r.value is None,
{
    Placeholder { name: p.name.clone(), value: None, metadata: clone_metadata_opt(&p.metadata) }
}


/// The first comma at or after `k`, or the length of the text.
pub open spec fn comma_from(t: Seq<char>, k: int) -> int
    decreases t.len() - k,
{
    if !(0 <= k < t.len()) {
        t.len() as int
    } else if t[k] == ',' {
        k
    } else {
        comma_from(t, k + 1)
    }
}

pub proof fn lemma_comma_from_bounds(t: Seq<char>, k: int)
    requires
        0 <= k <= t.len(),
    ensures
        k <= comma_from(t, k) <= t.len(),
        comma_from(t, k) < t.len() ==> t[comma_from(t, k)] == ',',
    decreases t.len() - k,
{
    if 0 <= k < t.len() && t[k] != ',' {
        lemma_comma_from_bounds(t, k + 1);
    }
}

/// The comma-separated entries of raw metadata text, from position `k` on.
pub open spec fn meta_entries_from(t: Seq<char>, k: int) -> Seq<Seq<char>>
    decreases t.len() - k,
        via meta_entries_from_decreases
{
    let c = comma_from(t, k);
    if c >= t.len() {
        seq![t.subrange(k, t.len() as int)]
    } else {
        seq![t.subrange(k, c)] + meta_entries_from(t, c + 1)
    }
}

#[via_fn]
proof fn meta_entries_from_decreases(t: Seq<char>, k: int) {
    if 0 <= k <= t.len() {
        lemma_comma_from_bounds(t, k);
    }
}

/// The comma-separated entries of raw metadata text.
pub open spec fn meta_entries(t: Seq<char>) -> Seq<Seq<char>> {
    meta_entries_from(t, 0)
}

/// The value under `key` among entries of the form `key=value`, if any.
pub open spec fn meta_lookup(entries: Seq<Seq<char>>, key: Seq<char>) -> Option<Seq<char>>
    decreases entries.len(),
{
    if entries.len() == 0 {
        None
    } else if entries[0].len() > key.len() && entries[0].subrange(0, key.len() as int) == key
        && entries[0][key.len() as int] == '=' {
        Some(entries[0].subrange(key.len() as int + 1, entries[0].len() as int))
    } else {
        meta_lookup(entries.drop_first(), key)
    }
}

/// Reading boolean and string values out of metadata by key.
pub trait Metadata {
    fn get_bool(&self, key: &str) -> bool;

    fn get_string(&self, key: &str) -> Option<String>;
}

impl Metadata for InlineMetadata {
    fn get_bool(&self, key: &str) -> bool {
        meta_get_bool(self, key)
    }

    fn get_string(&self, key: &str) -> Option<String> {
        meta_get_string(self, key)
    }
}

/// Splits raw metadata text into its comma-separated entries.
fn meta_split(data: &String) -> (r: Vec<String>)
    ensures
        crate::tokens::strs_view(r@) == meta_entries(data@),
{
    broadcast use crate::tokens::lemma_strs_view_len, crate::tokens::lemma_strs_view_index;

    let ghost t = data@;
    let n = data.as_str().unicode_len();
    let mut out: Vec<String> = Vec::new();
    let mut i: usize = 0;
    loop
        invariant_except_break
            crate::tokens::strs_view(out@) + meta_entries_from(t, i as int) == meta_entries(t),
        invariant
            t == data@,
            n == t.len(),
            0 <= i <= n,
        ensures
            crate::tokens::strs_view(out@) == meta_entries(t),
        decreases n - i,
    {
        proof {
            lemma_comma_from_bounds(t, i as int);
        }
        let mut entry = String::new();
        let mut j: usize = i;
        loop
            invariant_except_break
                t == data@,
                n == t.len(),
                i <= j <= n,
                entry@ == t.subrange(i as int, j as int),
                comma_from(t, i as int) == comma_from(t, j as int),
            invariant
                t == data@,
                n == t.len(),
                i <= j <= n,
            ensures
                entry@ == t.subrange(i as int, j as int),
                j as int == comma_from(t, i as int),
            decreases n - j,
        {
            if j >= n {
                proof {
                    assert(comma_from(t, j as int) == t.len());
                }
                break ;
            }
            let c = data.as_str().get_char(j);
            if c == ',' {
                proof {
                    assert(comma_from(t, j as int) == j as int);
                }
                break ;
            }
            entry.push(c);
            proof {
                assert(entry@ =~= t.subrange(i as int, j + 1));
            }
            j += 1;
        }
        let ghost out0 = out@;
        proof {
            crate::tokens::lemma_strs_view_push(out0, entry);
        }
        out.push(entry);
        if j >= n {
            proof {
                assert(meta_entries_from(t, i as int) =~= seq![t.subrange(i as int, n as int)]);
                assert(crate::tokens::strs_view(out@) =~= meta_entries(t));
            }
            break ;
        }
        proof {
            assert(meta_entries_from(t, i as int) == seq![t.subrange(i as int, j as int)]
                + meta_entries_from(t, j + 1));
            assert(crate::tokens::strs_view(out@) + meta_entries_from(t, j + 1) =~= meta_entries(
                t,
            ));
        }
        i = j + 1;
    }
    out
}

/// Whether an entry equal to `key` stands among the metadata entries.
pub fn meta_get_bool(meta: &InlineMetadata, key: &str) -> (r: bool)
    ensures
        r == meta_entries(meta.data@).contains(key@),
{
    broadcast use crate::tokens::lemma_strs_view_len, crate::tokens::lemma_strs_view_index;

    let entries = meta_split(&meta.data);
    let wanted = String::from_str(key);
    let mut k: usize = 0;
    let mut found = false;
    loop
        invariant
            wanted@ == key@,
            k <= entries@.len(),
            crate::tokens::strs_view(entries@) == meta_entries(meta.data@),
            found == exists|m: int|
                0 <= m < k && crate::tokens::strs_view(entries@)[m] == key@,
        ensures
            found == meta_entries(meta.data@).contains(key@),
        decreases entries@.len() - k,
    {
        if k >= entries.len() {
            proof {
                let es = crate::tokens::strs_view(entries@);
                if found {
                    let m = choose|m: int| 0 <= m < k && es[m] == key@;
                    assert(meta_entries(meta.data@)[m] == key@);
                    assert(meta_entries(meta.data@).contains(key@));
                } else {
                    if meta_entries(meta.data@).contains(key@) {
                        let m = choose|m: int|
                            0 <= m < meta_entries(meta.data@).len() && meta_entries(
                                meta.data@,
                            )[m] == key@;
                        assert(es[m] == key@);
                        assert(false);
                    }
                }
            }
            break ;
        }
        let ghost prev_found = found;
        if entries[k].eq(&wanted) {
            proof {
                assert(entries@[k as int]@ == key@);
                assert(crate::tokens::strs_view(entries@)[k as int] == key@);
            }
            found = true;
        }
        proof {
            if found {
                if prev_found {
                    let m = choose|m: int|
                        0 <= m < k && crate::tokens::strs_view(entries@)[m] == key@;
                    assert(0 <= m < k + 1 && crate::tokens::strs_view(entries@)[m] == key@);
                } else {
                    assert(crate::tokens::strs_view(entries@)[k as int] == key@);
                }
            } else {
                assert forall|m: int|
                    0 <= m < k + 1 implies crate::tokens::strs_view(entries@)[m] != key@ by {
                    if m < k {
                    } else {
                        assert(entries@[k as int]@ != key@);
                    }
                }
            }
        }
        k += 1;
    }
    found
}

/// The value of the first `key=value` entry among the metadata entries.
pub fn meta_get_string(meta: &InlineMetadata, key: &str) -> (r: Option<String>)
    ensures
        opt_str_view(r) == meta_lookup(meta_entries(meta.data@), key@),
{
    broadcast use crate::tokens::lemma_strs_view_len, crate::tokens::lemma_strs_view_index;

    let entries = meta_split(&meta.data);
    let klen = key.unicode_len();
    let mut k: usize = 0;
    proof {
        assert(crate::tokens::strs_view(entries@).skip(0) =~= crate::tokens::strs_view(
            entries@,
        ));
    }
    loop
        invariant_except_break
            k < entries@.len(),
        invariant
            klen == key@.len(),
            k <= entries@.len(),
            crate::tokens::strs_view(entries@) == meta_entries(meta.data@),
            meta_lookup(meta_entries(meta.data@), key@) == meta_lookup(
                crate::tokens::strs_view(entries@).skip(k as int),
                key@,
            ),
        ensures
            k == entries@.len(),
            meta_lookup(meta_entries(meta.data@), key@) is None,
        decreases entries@.len() - k,
    {
        proof {
            let es = crate::tokens::strs_view(entries@);
            assert(es.skip(k as int) =~= es.subrange(k as int, es.len() as int));
            assert(es.skip(k as int).len() == entries@.len() - k);
        }
        let entry = &entries[k];
        let elen = entry.as_str().unicode_len();
        let ghost ev = entry@;
        let mut is_pair = elen > klen;
        if is_pair {
            if entry.as_str().get_char(klen) != '=' {
                is_pair = false;
            }
        }
        if is_pair {
            let mut m: usize = 0;
            loop
                invariant
                    m <= klen,
                    klen == key@.len(),
                    klen < elen,
                    elen == ev.len(),
                    ev == entry@,
                    forall|x: int| 0 <= x < m ==> ev[x] == key@[x],
                ensures
                    is_pair_prefix(ev, key@) == (m == klen),
                    m == klen ==> forall|x: int| 0 <= x < klen ==> ev[x] == key@[x],
                decreases klen - m,
            {
                if m >= klen {
                    proof {
                        assert(ev.subrange(0, klen as int) =~= key@);
                    }
                    break ;
                }
                if entry.as_str().get_char(m) != key.get_char(m) {
                    proof {
                        assert(ev[m as int] != key@[m as int]);
                        assert(ev.subrange(0, klen as int) != key@) by {
                            if ev.subrange(0, klen as int) == key@ {
                                assert(ev.subrange(0, klen as int)[m as int] == key@[m as int]);
                            }
                        }
                    }
                    break ;
                }
                m += 1;
            }
            if m == klen {
                let value = String::from_str(entry.as_str().substring_char(klen + 1, elen));
                proof {
                    let es = crate::tokens::strs_view(entries@);
                    let sk = es.skip(k as int);
                    assert(sk[0] == es[k as int]);
                    assert(es[k as int] == entries@[k as int]@);
                    assert(sk[0] == ev);
                    assert(ev.subrange(0, klen as int) =~= key@);
                    assert(ev[klen as int] == '=');
                    assert(meta_lookup(sk, key@) == Some(
                        ev.subrange(klen as int + 1, ev.len() as int),
                    ));
                }
                return Some(value);
            }
        }
        proof {
            let es = crate::tokens::strs_view(entries@);
            let sk = es.skip(k as int);
            assert(sk[0] == es[k as int]);
            assert(es[k as int] == entries@[k as int]@);
            assert(sk[0] == ev);
            assert(!(ev.len() > key@.len() && ev.subrange(0, key@.len() as int) == key@
                && ev[key@.len() as int] == '=')) by {
                if ev.len() > key@.len() && ev[key@.len() as int] == '=' {
                    if ev.subrange(0, key@.len() as int) == key@ {
                        assert(is_pair_prefix(ev, key@));
                    }
                }
            }
            assert(meta_lookup(sk, key@) == meta_lookup(sk.drop_first(), key@));
            assert(sk.drop_first() =~= es.skip(k + 1));
        }
        k += 1;
        if k >= entries.len() {
            proof {
                assert(crate::tokens::strs_view(entries@).skip(k as int).len() == 0);
            }
            break ;
        }
    }
    None
}

/// Whether `key` is a proper prefix of an entry; only used in the proofs of
/// the metadata lookups.
pub open spec fn is_pair_prefix(entry: Seq<char>, key: Seq<char>) -> bool {
    entry.len() > key.len() && entry.subrange(0, key.len() as int) == key
}

impl Section {
    /// Whether this section asks to be left out of the table of contents.
    pub fn get_hide_in_toc(&self) -> (r: bool)
        ensures
            r == sec_hidden(*self),
    {
        match &self.metadata {
            Some(meta) => meta_get_bool(meta, "toc-hidden"),
            None => false,
        }
    }
}

/// Whether a section carries the boolean metadata key that hides it from
/// the table of contents.
pub open spec fn sec_hidden(s: Section) -> bool {
    match s.metadata {
        Some(m) => meta_entries(m.data@).contains("toc-hidden"@),
        None => false,
    }
}

/// The shape of a table-of-contents item: the anchor line it shows, and
/// its child items.
pub struct TocItemV {
    pub line: LineV,
    pub children: Seq<TocItemV>,
}

pub open spec fn toc_item_view(it: ListItem) -> TocItemV
    decreases it,
{
    TocItemV { line: line_view(it.text), children: toc_items_view(it.children@) }
}

pub open spec fn toc_items_view(s: Seq<ListItem>) -> Seq<TocItemV>
    decreases s,
{
    if s.len() == 0 {
        Seq::<TocItemV>::empty()
    } else {
        seq![toc_item_view(s[0])] + toc_items_view(s.drop_first())
    }
}

pub broadcast proof fn lemma_toc_items_view_len(s: Seq<ListItem>)
    ensures
        (#[trigger] toc_items_view(s)).len() == s.len(),
    decreases s,
{
    if s.len() > 0 {
        lemma_toc_items_view_len(s.drop_first());
    }
}

pub broadcast proof fn lemma_toc_items_view_index(s: Seq<ListItem>, i: int)
    requires
        0 <= i < s.len(),
    ensures
        #[trigger] toc_items_view(s)[i] == toc_item_view(s[i]),
    decreases s,
{
    lemma_toc_items_view_len(s.drop_first());
    if i > 0 {
        lemma_toc_items_view_index(s.drop_first(), i - 1);
        assert(s.drop_first()[i - 1] == s[i]);
    }
}

} // verus!

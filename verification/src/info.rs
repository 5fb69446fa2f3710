//! The structure of an Info file, as the Texinfo manual describes the format.
pub mod parse;
pub mod render;
pub mod search;

use vstd::prelude::*;

use crate::info::parse::{
    Fail, ParseError, aborts, fits, law_file_has_a_node, nonsplit_info_file_at, spec_nonsplit_info_file, stops_short,
    whole,
};
use crate::text::chars_of;
use crate::info::render::{
    NodeLines, RenderError, cat, law_node_line_lookup, lines_before, lookup, lookup_line, node_begin_lines,
    render_file,
};
use crate::{Manual, RenderOptions};

verus! {

/// What precedes the first node of a file.
#[derive(Debug, Clone, PartialEq, Eq)]
pub struct Preamble {
    pub content: String,
}

/// A reference to a node: `(infofile)nodename`, each part optional.
#[derive(Debug, Clone, PartialEq, Eq, Hash)]
pub struct Id {
    pub infofile: Option<String>,
    pub nodename: Option<String>,
}

/// How a heading is underlined: `*`, `=`, `-` or `.`.
#[derive(Debug, Clone, Copy, PartialEq, Eq, Structural)]
pub enum HeadingLevel {
    /// title/chapter
    Major,
    Section,
    SubSection,
    SubSubSection,
}

/// A line of text underlined to its width.
#[derive(Debug, Clone, PartialEq, Eq)]
pub struct Heading {
    pub level: HeadingLevel,
    pub text: String,
}

/// Lines of running text.
#[derive(Debug, Clone, PartialEq, Eq)]
pub struct Paragraph {
    pub lines: Vec<String>,
}

/// Lines shown as they are, such as an example.
#[derive(Debug, Clone, PartialEq, Eq)]
pub struct Verbatim {
    pub lines: Vec<String>,
}

/// `* label: (file)node.  description`: a reference to a node, with the empty lines after it.
#[derive(Debug, Clone, PartialEq, Eq)]
pub struct MenuEntry {
    pub label: Option<String>,
    pub description: Vec<String>,
    pub id: Id,
    pub trailing_newlines: usize,
}

/// Text between the entries of a menu, with the empty lines after it.
#[derive(Debug, Clone, PartialEq, Eq)]
pub struct MenuComment {
    pub lines: Vec<String>,
    pub trailing_newlines: usize,
}

/// An entry or a comment of a menu.
#[derive(Debug, Clone, PartialEq, Eq)]
pub enum MenuItem {
    Entry(MenuEntry),
    Comment(MenuComment),
}

/// `* Menu:` and its items.
#[derive(Debug, Clone, PartialEq, Eq)]
pub struct Menu {
    pub items: Vec<MenuItem>,
}

/// An entry of an index: its text, the node it refers to and the line in that node.
#[derive(Debug, Clone, PartialEq, Eq)]
pub struct IndexEntry {
    pub text: String,
    pub node: Id,
    pub line: usize,
}

/// The index that `@printindex` writes.
#[derive(Debug, Clone, PartialEq, Eq)]
pub struct Printindex {
    pub entries: Vec<IndexEntry>,
}

/// An entry of a two-column table: a title, and a description further in.
#[derive(Debug, PartialEq, Eq)]
pub struct TableEntry {
    pub title: String,
    pub description: Vec<TextBlock>,
}

/// The kinds of text blocks.
#[derive(Debug, PartialEq, Eq)]
pub enum TextBlockContent {
    Paragraph(Paragraph),
    Menu(Menu),
    Printindex(Printindex),
    Heading(Heading),
    Verbatim(Verbatim),
    TableEntry(TableEntry),
    BunchOfUnknownLines(Vec<String>),
}

/// A block of the text of a node.
#[derive(Debug, PartialEq, Eq)]
pub struct TextBlock {
    pub content: TextBlockContent,
}

/// A node: its header (file, name, neighbours, description) and its text blocks.
#[derive(Debug, PartialEq, Eq)]
pub struct Node {
    pub file: String,
    pub node: Id,
    pub next: Option<Id>,
    pub prev: Option<Id>,
    pub up: Option<Id>,
    pub descr: Option<String>,
    pub general_text: Vec<TextBlock>,
}

/// A node or a reference in the tag table, and where it starts in the file.
#[derive(Debug, Clone, PartialEq, Eq)]
pub struct Tag {
    pub nodeid: String,
    pub bytepos: u64,
}

/// An entry of the tag table.
#[derive(Debug, Clone, PartialEq, Eq)]
pub enum TagTableEntry {
    Node(Tag),
    Ref(Tag),
}

/// The table of where nodes start, `(Indirect)` in a split manual.
#[derive(Debug, Clone, PartialEq, Eq)]
pub struct TagTable {
    pub indirect: bool,
    pub entries: Vec<TagTableEntry>,
}

/// The `Local Variables` block at the end of a file.
#[derive(Debug, Clone, PartialEq, Eq)]
pub struct LocalVariables {
    pub coding: Option<String>,
    pub language: Option<String>,
}

/// A whole manual in one file.
#[derive(Debug, PartialEq, Eq)]
pub struct NonsplitInfoFile {
    pub preamble: Preamble,
    pub nodes: Vec<Node>,
    pub tag_table: Option<TagTable>,
    pub local_variables: Option<LocalVariables>,
}

/// A subfile of a split manual and where it starts in the whole.
#[derive(Debug, Clone, PartialEq, Eq)]
pub struct IndirectEntry {
    pub filename: String,
    pub bytepos: u64,
}

/// The list of the subfiles of a split manual.
#[derive(Debug, Clone, PartialEq, Eq)]
pub struct IndirectTable {
    pub entries: Vec<IndirectEntry>,
}

/// The main file of a split manual.
#[derive(Debug, Clone, PartialEq, Eq)]
pub struct SplitInfoMainFile {
    pub preamble: Preamble,
    pub indirect_table: IndirectTable,
    pub tag_table: TagTable,
    pub local_variables: LocalVariables,
}

/// A subfile of a split manual: a preamble and nodes.
#[derive(Debug, PartialEq, Eq)]
pub struct SplitInfoSubfile {
    pub preamble: Preamble,
    pub nodes: Vec<Node>,
}

// ---------------------------------------------------------------------------------------------
// The mathematical model of each type: strings are sequences of characters.
// ---------------------------------------------------------------------------------------------

#[verifier::ext_equal]
pub struct SpecId {
    pub infofile: Option<Seq<char>>,
    pub nodename: Option<Seq<char>>,
}

impl DeepView for Id {
    type V = SpecId;

    open spec fn deep_view(&self) -> SpecId {
        SpecId { infofile: self.infofile.deep_view(), nodename: self.nodename.deep_view() }
    }
}

#[verifier::ext_equal]
pub struct SpecHeading {
    pub level: HeadingLevel,
    pub text: Seq<char>,
}

impl DeepView for Heading {
    type V = SpecHeading;

    open spec fn deep_view(&self) -> SpecHeading {
        SpecHeading { level: self.level, text: self.text@ }
    }
}

#[verifier::ext_equal]
pub struct SpecMenuEntry {
    pub label: Option<Seq<char>>,
    pub description: Seq<Seq<char>>,
    pub id: SpecId,
    pub trailing_newlines: nat,
}

impl DeepView for MenuEntry {
    type V = SpecMenuEntry;

    open spec fn deep_view(&self) -> SpecMenuEntry {
        SpecMenuEntry {
            label: self.label.deep_view(),
            description: self.description.deep_view(),
            id: self.id.deep_view(),
            trailing_newlines: self.trailing_newlines as nat,
        }
    }
}

#[verifier::ext_equal]
pub struct SpecMenuComment {
    pub lines: Seq<Seq<char>>,
    pub trailing_newlines: nat,
}

impl DeepView for MenuComment {
    type V = SpecMenuComment;

    open spec fn deep_view(&self) -> SpecMenuComment {
        SpecMenuComment {
            lines: self.lines.deep_view(),
            trailing_newlines: self.trailing_newlines as nat,
        }
    }
}

#[verifier::ext_equal]
pub enum SpecMenuItem {
    Entry(SpecMenuEntry),
    Comment(SpecMenuComment),
}

impl DeepView for MenuItem {
    type V = SpecMenuItem;

    open spec fn deep_view(&self) -> SpecMenuItem {
        match self {
            MenuItem::Entry(e) => SpecMenuItem::Entry(e.deep_view()),
            MenuItem::Comment(c) => SpecMenuItem::Comment(c.deep_view()),
        }
    }
}

#[verifier::ext_equal]
pub struct SpecIndexEntry {
    pub text: Seq<char>,
    pub node: SpecId,
    pub line: nat,
}

impl DeepView for IndexEntry {
    type V = SpecIndexEntry;

    open spec fn deep_view(&self) -> SpecIndexEntry {
        SpecIndexEntry { text: self.text@, node: self.node.deep_view(), line: self.line as nat }
    }
}

/// The model of a text block.
#[verifier::ext_equal]
pub enum SpecBlock {
    Paragraph(Seq<Seq<char>>),
    Menu(Seq<SpecMenuItem>),
    Printindex(Seq<SpecIndexEntry>),
    Heading(SpecHeading),
    Verbatim(Seq<Seq<char>>),
    TableEntry(Seq<char>, Seq<SpecBlock>),
    BunchOfUnknownLines(Seq<Seq<char>>),
}

pub open spec fn block_view(b: TextBlock) -> SpecBlock
    decreases b, 0int,
{
    match b.content {
        TextBlockContent::Paragraph(p) => SpecBlock::Paragraph(p.lines.deep_view()),
        TextBlockContent::Menu(m) => SpecBlock::Menu(m.items.deep_view()),
        TextBlockContent::Printindex(p) => SpecBlock::Printindex(p.entries.deep_view()),
        TextBlockContent::Heading(h) => SpecBlock::Heading(h.deep_view()),
        TextBlockContent::Verbatim(v) => SpecBlock::Verbatim(v.lines.deep_view()),
        TextBlockContent::TableEntry(e) => SpecBlock::TableEntry(e.title@, blocks_view(e.description@)),
        TextBlockContent::BunchOfUnknownLines(l) => SpecBlock::BunchOfUnknownLines(l.deep_view()),
    }
}

pub open spec fn blocks_view(s: Seq<TextBlock>) -> Seq<SpecBlock>
    decreases s, 1int,
{
    if s.len() == 0 {
        Seq::empty()
    } else {
        seq![block_view(s[0])] + blocks_view(s.subrange(1, s.len() as int))
    }
}

impl DeepView for TextBlock {
    type V = SpecBlock;

    open spec fn deep_view(&self) -> SpecBlock {
        block_view(*self)
    }
}

pub proof fn lemma_blocks_view_push(s: Seq<TextBlock>, b: TextBlock)
    ensures
        blocks_view(s.push(b)) == blocks_view(s).push(block_view(b)),
    decreases s.len(),
{
    if s.len() == 0 {
        let t = s.push(b);
        assert(t.len() == 1 && t[0] == b);
        assert(t.subrange(1, 1) =~= Seq::<TextBlock>::empty());
        assert(blocks_view(t.subrange(1, 1)) =~= Seq::<SpecBlock>::empty());
        assert(blocks_view(t) =~= seq![block_view(b)]);
        assert(blocks_view(s) =~= Seq::<SpecBlock>::empty());
    } else {
        assert(s.push(b).subrange(1, s.len() as int + 1) =~= s.subrange(1, s.len() as int).push(b));
        lemma_blocks_view_push(s.subrange(1, s.len() as int), b);
        assert(blocks_view(s.push(b)) =~= blocks_view(s).push(block_view(b)));
    }
}

pub proof fn lemma_blocks_view_len(s: Seq<TextBlock>)
    ensures
        blocks_view(s).len() == s.len(),
        forall|i: int| 0 <= i < s.len() ==> blocks_view(s)[i] == block_view(#[trigger] s[i]),
    decreases s.len(),
{
    if s.len() > 0 {
        let rest = s.subrange(1, s.len() as int);
        lemma_blocks_view_len(rest);
        assert forall|i: int| 0 <= i < s.len() implies blocks_view(s)[i] == block_view(#[trigger] s[i]) by {
            if i > 0 {
                assert(rest[i - 1] == s[i]);
            }
        }
    }
}

#[verifier::ext_equal]
pub struct SpecNode {
    pub file: Seq<char>,
    pub node: SpecId,
    pub next: Option<SpecId>,
    pub prev: Option<SpecId>,
    pub up: Option<SpecId>,
    pub descr: Option<Seq<char>>,
    pub general_text: Seq<SpecBlock>,
}

impl DeepView for Node {
    type V = SpecNode;

    open spec fn deep_view(&self) -> SpecNode {
        SpecNode {
            file: self.file@,
            node: self.node.deep_view(),
            next: self.next.deep_view(),
            prev: self.prev.deep_view(),
            up: self.up.deep_view(),
            descr: self.descr.deep_view(),
            general_text: blocks_view(self.general_text@),
        }
    }
}

#[verifier::ext_equal]
pub struct SpecTag {
    pub nodeid: Seq<char>,
    pub bytepos: nat,
}

impl DeepView for Tag {
    type V = SpecTag;

    open spec fn deep_view(&self) -> SpecTag {
        SpecTag { nodeid: self.nodeid@, bytepos: self.bytepos as nat }
    }
}

#[verifier::ext_equal]
pub enum SpecTagTableEntry {
    Node(SpecTag),
    Ref(SpecTag),
}

impl DeepView for TagTableEntry {
    type V = SpecTagTableEntry;

    open spec fn deep_view(&self) -> SpecTagTableEntry {
        match self {
            TagTableEntry::Node(t) => SpecTagTableEntry::Node(t.deep_view()),
            TagTableEntry::Ref(t) => SpecTagTableEntry::Ref(t.deep_view()),
        }
    }
}

#[verifier::ext_equal]
pub struct SpecTagTable {
    pub indirect: bool,
    pub entries: Seq<SpecTagTableEntry>,
}

impl DeepView for TagTable {
    type V = SpecTagTable;

    open spec fn deep_view(&self) -> SpecTagTable {
        SpecTagTable { indirect: self.indirect, entries: self.entries.deep_view() }
    }
}

#[verifier::ext_equal]
pub struct SpecLocalVariables {
    pub coding: Option<Seq<char>>,
    pub language: Option<Seq<char>>,
}

impl DeepView for LocalVariables {
    type V = SpecLocalVariables;

    open spec fn deep_view(&self) -> SpecLocalVariables {
        SpecLocalVariables { coding: self.coding.deep_view(), language: self.language.deep_view() }
    }
}

#[verifier::ext_equal]
pub struct SpecInfoFile {
    pub preamble: Seq<char>,
    pub nodes: Seq<SpecNode>,
    pub tag_table: Option<SpecTagTable>,
    pub local_variables: Option<SpecLocalVariables>,
}

impl DeepView for NonsplitInfoFile {
    type V = SpecInfoFile;

    open spec fn deep_view(&self) -> SpecInfoFile {
        SpecInfoFile {
            preamble: self.preamble.content@,
            nodes: self.nodes.deep_view(),
            tag_table: self.tag_table.deep_view(),
            local_variables: self.local_variables.deep_view(),
        }
    }
}

/// A manual held in one Info file.
#[derive(Debug)]
pub struct NonsplitManual {
    file: NonsplitInfoFile,
}

impl DeepView for NonsplitManual {
    type V = SpecInfoFile;

    closed spec fn deep_view(&self) -> SpecInfoFile {
        self.file.deep_view()
    }
}

impl NonsplitManual {
    /// Where each node of the manual begins once it is rendered with `opt`.
    fn resolve_lines(&self, opt: RenderOptions) -> (r: Result<NodeLines, RenderError>)
        ensures
            match node_begin_lines(self.deep_view().nodes, opt.spec_indent() as nat, opt.spec_max_width() as nat) {
                Some(m) => r matches Ok(v) && v.deep_view() == m,
                None => r is Err,
            },
    {
        self.file.resolve_node_begin_lines(opt)
    }

    /// The line where the node named `node` begins once the manual is rendered with `opt`, if
    /// the manual has such a node.
    pub fn start_line_for(&self, opt: RenderOptions, node: &str) -> (r: Result<Option<usize>, RenderError>)
        ensures
            match node_begin_lines(self.deep_view().nodes, opt.spec_indent() as nat, opt.spec_max_width() as nat) {
                Some(m) => r == Ok::<Option<usize>, RenderError>(
                    lookup_line(m, SpecId { infofile: None, nodename: Some(node@) }),
                ),
                None => r is Err,
            },
    {
        let lines = self.resolve_lines(opt)?;
        let id = Id { infofile: None, nodename: Some(node.to_owned()) };
        Ok(lookup(&lines, &id))
    }

    /// The nodes of the manual, in the order of the file.
    pub fn nodes(&self) -> (r: &Vec<Node>)
        ensures
            r.deep_view() == self.deep_view().nodes,
    {
        &self.file.nodes
    }

    /// The file name that the first node gives, or nothing when there is no node.
    pub fn title(&self) -> (r: &str)
        ensures
            r@ == if self.deep_view().nodes.len() > 0 {
                self.deep_view().nodes[0].file
            } else {
                Seq::<char>::empty()
            },
    {
        if self.file.nodes.len() > 0 {
            self.file.nodes[0].file.as_str()
        } else {
            proof {
                reveal_strlit("");
            }
            ""
        }
    }
}

// https://www.gnu.org/software/texinfo/manual/texinfo/html_node/Info-Format-Whole-Manual.html
/// Reads a manual from the content of a non-split Info file.
pub fn read_nonsplit_manual(content: &str) -> (r: Result<NonsplitManual, ParseError>)
    requires
        fits(content@),
        !aborts(spec_nonsplit_info_file(content@, 0)),
    ensures
        r matches Ok(m) ==> whole(spec_nonsplit_info_file(content@, 0), content@) == Some(m.deep_view()),
        r matches Ok(m) ==> m.deep_view().nodes.len() >= 1,
        r is Err ==> whole(spec_nonsplit_info_file(content@, 0), content@) is None,
        r matches Err(ParseError::TrailingInput) <==> stops_short(spec_nonsplit_info_file(content@, 0), content@),
        r matches Err(ParseError::Invalid) <==> spec_nonsplit_info_file(content@, 0) is Err,
{
    proof {
        law_file_has_a_node(content@, 0);
    }
    match crate::info::parse::nonsplit_info_file(content) {
        Ok(f) => Ok(NonsplitManual { file: f }),
        Err(e) => Err(e),
    }
}


/// Reads a manual from the content of a non-split Info file, as `read_nonsplit_manual` does,
/// and gives nothing on the inputs on which reading stops without a result (an index entry
/// whose first line ends in a period followed by a character outside ASCII).
pub fn try_read_nonsplit_manual(content: &str) -> (r: Option<Result<NonsplitManual, ParseError>>)
    requires
        fits(content@),
    ensures
        r is None <==> aborts(spec_nonsplit_info_file(content@, 0)),
        r matches Some(Ok(m)) ==> whole(spec_nonsplit_info_file(content@, 0), content@) == Some(m.deep_view()),
        r matches Some(Ok(m)) ==> m.deep_view().nodes.len() >= 1,
        r matches Some(Err(_)) ==> whole(spec_nonsplit_info_file(content@, 0), content@) is None,
        r matches Some(Err(ParseError::TrailingInput)) <==> stops_short(spec_nonsplit_info_file(content@, 0), content@),
        r matches Some(Err(ParseError::Invalid)) <==> (spec_nonsplit_info_file(content@, 0) is Err
            && !aborts(spec_nonsplit_info_file(content@, 0))),
{
    proof {
        law_file_has_a_node(content@, 0);
    }
    let s = chars_of(content);
    let n = s.len();
    match nonsplit_info_file_at(s.as_slice(), 0) {
        Ok((f, q)) => if q == n {
            Some(Ok(NonsplitManual { file: f }))
        } else {
            Some(Err(ParseError::TrailingInput))
        },
        Err(Fail::Abort) => None,
        Err(_) => Some(Err(ParseError::Invalid)),
    }
}

/// What a manual renders to is what its file renders to, and its title is the file name that
/// its first node gives.
pub proof fn lemma_manual_model(m: NonsplitManual, opt: RenderOptions)
    ensures
        m.rendered(opt) == render_file(m.deep_view().nodes, opt.spec_indent() as nat, opt.spec_max_width() as nat),
        m.title_of() == if m.deep_view().nodes.len() > 0 {
            m.deep_view().nodes[0].file
        } else {
            Seq::<char>::empty()
        },
{
}

/// Where `start_line_for` finds the node named `name` (it gives `Ok` of this lookup whenever
/// the node positions can be worked out): a node of that name that no later node shares its
/// name with begins on the line after all the lines the nodes before it render to, so the first
/// node on line 1; a name that no node has is not found.
pub proof fn law_start_line_for(m: NonsplitManual, opt: RenderOptions, name: Seq<char>)
    requires
        node_begin_lines(m.deep_view().nodes, opt.spec_indent() as nat, opt.spec_max_width() as nat) is Some,
    ensures
        ({
            let nodes = m.deep_view().nodes;
            let ind = opt.spec_indent() as nat;
            let width = opt.spec_max_width() as nat;
            let id = SpecId { infofile: None, nodename: Some(name) };
            let found = lookup_line(node_begin_lines(nodes, ind, width).unwrap(), id);
            &&& (forall|i: int| 0 <= i < nodes.len() ==> #[trigger] nodes[i].node != id) ==> found is None
            &&& forall|k: int|
                0 <= k < nodes.len() && #[trigger] nodes[k].node == id && (forall|i: int|
                    k < i < nodes.len() ==> nodes[i].node != id) ==> lines_before(nodes, k, ind, width) is Some
                    && found == Some((1 + lines_before(nodes, k, ind, width).unwrap()) as usize)
            &&& nodes.len() > 0 && nodes[0].node == id && (forall|i: int| 0 < i < nodes.len() ==> nodes[i].node
                != id) ==> found == Some(1usize)
        }),
{
    let nodes = m.deep_view().nodes;
    let ind = opt.spec_indent() as nat;
    let width = opt.spec_max_width() as nat;
    let id = SpecId { infofile: None, nodename: Some(name) };
    law_node_line_lookup(nodes, ind, width, id);
    if nodes.len() > 0 && nodes[0].node == id && (forall|i: int| 0 < i < nodes.len() ==> nodes[i].node != id) {
        assert(nodes.take(0) =~= Seq::<SpecNode>::empty());
        assert(lines_before(nodes, 0, ind, width) == Some(0nat));
    }
}

/// The title of a manual that reads from `content` is the file name that its first node gives:
/// such a manual always has a first node.
pub proof fn law_read_title(content: Seq<char>, m: NonsplitManual)
    requires
        whole(spec_nonsplit_info_file(content, 0), content) == Some(m.deep_view()),
    ensures
        m.deep_view().nodes.len() >= 1,
        m.title_of() == m.deep_view().nodes[0].file,
{
    law_file_has_a_node(content, 0);
}

impl Manual for NonsplitManual {
    closed spec fn rendered(&self, opt: RenderOptions) -> Option<Seq<char>> {
        render_file(self.file.nodes.deep_view(), opt.spec_indent() as nat, opt.spec_max_width() as nat)
    }

    closed spec fn title_of(&self) -> Seq<char> {
        if self.file.nodes@.len() > 0 {
            self.file.nodes@[0].file@
        } else {
            Seq::empty()
        }
    }

    fn render(&self, into: &mut String, opt: RenderOptions) -> (r: Result<(), RenderError>) {
        self.file.render(into, opt)
    }

    fn title(&self) -> (r: &str) {
        self.file.title()
    }
}

impl Manual for NonsplitInfoFile {
    open spec fn rendered(&self, opt: RenderOptions) -> Option<Seq<char>> {
        render_file(self.nodes.deep_view(), opt.spec_indent() as nat, opt.spec_max_width() as nat)
    }

    open spec fn title_of(&self) -> Seq<char> {
        if self.nodes@.len() > 0 {
            self.nodes@[0].file@
        } else {
            Seq::empty()
        }
    }

    fn render(&self, into: &mut String, opt: RenderOptions) -> (r: Result<(), RenderError>) {
        NonsplitInfoFile::render(self, into, opt)
    }

    fn title(&self) -> (r: &str) {
        NonsplitInfoFile::title(self)
    }
}

} // verus!

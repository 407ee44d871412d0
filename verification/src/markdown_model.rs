//! Markdown documents as the console's pages render them.

use vstd::prelude::*;

verus! {

/// A piece of a rendered document.
#[derive(Debug, PartialEq, Eq)]
pub enum MarkdownNode {
    Paragraph { children: Vec<MarkdownNode> },
    Heading { level: u8, children: Vec<MarkdownNode> },
    OrderedList { start: u64, items: Vec<Vec<MarkdownNode>> },
    UnorderedList { items: Vec<Vec<MarkdownNode>> },
    BlockQuote { children: Vec<MarkdownNode> },
    CodeBlock { language: Option<String>, code: String },
    ThematicBreak,
    Text { text: String },
    Emphasis { children: Vec<MarkdownNode> },
    Strong { children: Vec<MarkdownNode> },
    Strikethrough { children: Vec<MarkdownNode> },
    InlineCode { code: String },
    Link { destination: String, children: Vec<MarkdownNode> },
    LineBreak,
}

/// A markdown source and what it renders to.
#[derive(Debug, PartialEq, Eq)]
pub struct MarkdownDocument {
    pub source: String,
    pub blocks: Vec<MarkdownNode>,
}

/// A piece of a rendered document with its texts as characters.
pub enum MarkdownView {
    Paragraph { children: Seq<MarkdownView> },
    Heading { level: u8, children: Seq<MarkdownView> },
    OrderedList { start: u64, items: Seq<Seq<MarkdownView>> },
    UnorderedList { items: Seq<Seq<MarkdownView>> },
    BlockQuote { children: Seq<MarkdownView> },
    CodeBlock { language: Option<Seq<char>>, code: Seq<char> },
    ThematicBreak,
    Text { text: Seq<char> },
    Emphasis { children: Seq<MarkdownView> },
    Strong { children: Seq<MarkdownView> },
    Strikethrough { children: Seq<MarkdownView> },
    InlineCode { code: Seq<char> },
    Link { destination: Seq<char>, children: Seq<MarkdownView> },
    LineBreak,
}

/// Rendered pieces with their texts as characters.
pub open spec fn pieces(nodes: Seq<MarkdownNode>) -> Seq<MarkdownView>
    decreases nodes,
{
    Seq::new(
        nodes.len(),
        |i: int|
            if 0 <= i < nodes.len() {
                piece(nodes[i])
            } else {
                arbitrary()
            },
    )
}

/// Lists of rendered pieces with their texts as characters.
pub open spec fn piece_lists(items: Seq<Vec<MarkdownNode>>) -> Seq<Seq<MarkdownView>>
    decreases items,
{
    Seq::new(
        items.len(),
        |i: int|
            if 0 <= i < items.len() {
                pieces(items[i]@)
            } else {
                arbitrary()
            },
    )
}

/// A rendered piece with its texts as characters.
pub open spec fn piece(node: MarkdownNode) -> MarkdownView
    decreases node,
{
    match node {
        MarkdownNode::Paragraph { children } => MarkdownView::Paragraph {
            children: pieces(children@),
        },
        MarkdownNode::Heading { level, children } => MarkdownView::Heading {
            level,
            children: pieces(children@),
        },
        MarkdownNode::OrderedList { start, items } => MarkdownView::OrderedList {
            start,
            items: piece_lists(items@),
        },
        MarkdownNode::UnorderedList { items } => MarkdownView::UnorderedList {
            items: piece_lists(items@),
        },
        MarkdownNode::BlockQuote { children } => MarkdownView::BlockQuote {
            children: pieces(children@),
        },
        MarkdownNode::CodeBlock { language, code } => MarkdownView::CodeBlock {
            language: match language {
                Some(name) => Some(name@),
                None => None,
            },
            code: code@,
        },
        MarkdownNode::ThematicBreak => MarkdownView::ThematicBreak,
        MarkdownNode::Text { text } => MarkdownView::Text { text: text@ },
        MarkdownNode::Emphasis { children } => MarkdownView::Emphasis {
            children: pieces(children@),
        },
        MarkdownNode::Strong { children } => MarkdownView::Strong { children: pieces(children@) },
        MarkdownNode::Strikethrough { children } => MarkdownView::Strikethrough {
            children: pieces(children@),
        },
        MarkdownNode::InlineCode { code } => MarkdownView::InlineCode { code: code@ },
        MarkdownNode::Link { destination, children } => MarkdownView::Link {
            destination: destination@,
            children: pieces(children@),
        },
        MarkdownNode::LineBreak => MarkdownView::LineBreak,
    }
}

impl View for MarkdownNode {
    type V = MarkdownView;

    open spec fn view(&self) -> MarkdownView {
        piece(*self)
    }
}

/// A document with its texts as characters.
#[verifier::ext_equal]
pub struct DocumentView {
    pub source: Seq<char>,
    pub blocks: Seq<MarkdownView>,
}

impl View for MarkdownDocument {
    type V = DocumentView;

    open spec fn view(&self) -> DocumentView {
        DocumentView { source: self.source@, blocks: pieces(self.blocks@) }
    }
}

/// What an anchor of a conversation holds.
#[derive(Debug, Clone, PartialEq, Eq)]
pub enum AnchorPayload {
    Session { prompt: String, system_prompt: String },
    Prompt { prompt: String },
    SkillInvocation { handoff_prompt: Option<String> },
    SkillResult { output: String },
    SessionPatch,
}

/// What a node of a conversation holds, as far as it can be shown as markdown.
#[derive(Debug, Clone, PartialEq, Eq)]
pub enum NodeContent {
    Text { text: String },
    Anchor { payload: AnchorPayload },
    ToolUse,
    ToolResult,
    Failure,
}

} // verus!

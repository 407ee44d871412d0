//! The syntax of a markdown source, listed in the order of its nodes.

use vstd::prelude::*;
use crate::markdown_text::can_slice;
use crate::markdown_text::is_slice;

verus! {

/// A node of the syntax tree. A list of these holds a tree in the order of its nodes: each
/// node comes before its descendants, and those lie deeper than it.
#[derive(Debug, Clone, PartialEq, Eq)]
pub struct SyntaxRow {
    pub kind: String,
    pub named: bool,
    pub start: usize,
    pub end: usize,
    pub column: usize,
    pub depth: usize,
}

/// A node of the syntax tree with its kind as characters.
#[verifier::ext_equal]
pub struct RowView {
    pub kind: Seq<char>,
    pub named: bool,
    pub start: usize,
    pub end: usize,
    pub column: usize,
    pub depth: usize,
}

impl View for SyntaxRow {
    type V = RowView;

    open spec fn view(&self) -> RowView {
        RowView {
            kind: self.kind@,
            named: self.named,
            start: self.start,
            end: self.end,
            column: self.column,
            depth: self.depth,
        }
    }
}

/// The rows of a list.
pub open spec fn row_views(rows: Seq<SyntaxRow>) -> Seq<RowView> {
    rows.map_values(|row: SyntaxRow| row@)
}

/// The syntax of a source: the tree of its blocks, and for each block the tree of its inline
/// content, where it has any.
#[derive(Debug, PartialEq, Eq)]
pub struct SyntaxTree {
    pub blocks: Vec<SyntaxRow>,
    pub inlines: Vec<Option<Vec<SyntaxRow>>>,
}

/// The syntax of a source with its kinds as characters.
#[verifier::ext_equal]
pub struct SyntaxView {
    pub blocks: Seq<RowView>,
    pub inlines: Seq<Option<Seq<RowView>>>,
}

/// The inline trees of a list.
pub open spec fn inline_views(inlines: Seq<Option<Vec<SyntaxRow>>>) -> Seq<Option<Seq<RowView>>> {
    inlines.map_values(
        |rows: Option<Vec<SyntaxRow>>|
            match rows {
                Some(list) => Some(row_views(list@)),
                None => None,
            },
    )
}

impl View for SyntaxTree {
    type V = SyntaxView;

    open spec fn view(&self) -> SyntaxView {
        SyntaxView { blocks: row_views(self.blocks@), inlines: inline_views(self.inlines@) }
    }
}

/// A parsed source of the parser crate.
#[verifier::external_type_specification]
#[verifier::external_body]
pub struct ExMarkdownTree(tree_sitter_md::MarkdownTree);

/// The nodes of the block tree of a parsed source, in order.
pub uninterp spec fn tree_blocks(tree: tree_sitter_md::MarkdownTree) -> Seq<RowView>;

/// For each node of the block tree the nodes of its inline tree, in order, where it has one.
pub uninterp spec fn tree_inlines(tree: tree_sitter_md::MarkdownTree) -> Seq<Option<Seq<RowView>>>;

/// The syntax that the parser finds in a source, where it finds one.
pub uninterp spec fn markdown_syntax(source: Seq<char>) -> Option<SyntaxView>;

/// Calls `MarkdownParser::parse` without an earlier tree. Claims that the outcome depends on
/// the source alone.
#[verifier::external_body]
fn parse_source(source: &str) -> (tree: Option<tree_sitter_md::MarkdownTree>)
    ensures
        match tree {
            Some(found) => markdown_syntax(source@) == Some(
                SyntaxView { blocks: tree_blocks(found), inlines: tree_inlines(found) },
            ),
            None => markdown_syntax(source@) is None,
        },
{
    tree_sitter_md::MarkdownParser::default().parse(source.as_bytes(), None)
}

/// Calls `Node::descendant_count` on the root of the block tree. Claims that it counts the
/// nodes of that tree, and that there is an entry for the inline content of each.
#[verifier::external_body]
fn block_count(tree: &tree_sitter_md::MarkdownTree) -> (count: usize)
    ensures
        count == tree_blocks(*tree).len(),
        count == tree_inlines(*tree).len(),
{
    tree.block_tree().root_node().descendant_count()
}

/// Calls `TreeCursor::goto_descendant` on the block tree and reads the node there. Claims that
/// it is the node at that place of the tree.
#[verifier::external_body]
fn block_row(tree: &tree_sitter_md::MarkdownTree, index: usize) -> (row: SyntaxRow)
    requires
        index < tree_blocks(*tree).len(),
    ensures
        row@ == tree_blocks(*tree)[index as int],
{
    let mut cursor = tree.block_tree().walk();
    cursor.goto_descendant(index);
    let node = cursor.node();
    SyntaxRow {
        kind: node.kind().to_owned(),
        named: node.is_named(),
        start: node.start_byte(),
        end: node.end_byte(),
        column: node.start_position().column,
        depth: cursor.depth() as usize,
    }
}

/// Calls `MarkdownTree::inline_tree` on a node of the block tree. Claims that it tells whether
/// the node has an inline tree, and how many nodes that tree has.
#[verifier::external_body]
fn inline_count(tree: &tree_sitter_md::MarkdownTree, index: usize) -> (count: Option<usize>)
    requires
        index < tree_blocks(*tree).len(),
    ensures
        match count {
            Some(number) => tree_inlines(*tree)[index as int] matches Some(rows) && number == rows.len(),
            None => tree_inlines(*tree)[index as int] is None,
        },
{
    let mut cursor = tree.block_tree().walk();
    cursor.goto_descendant(index);
    let inline = tree.inline_tree(&cursor.node())?;
    Some(inline.root_node().descendant_count())
}

/// Calls `MarkdownTree::inline_tree` on a node of the block tree, then
/// `TreeCursor::goto_descendant`, and reads the node there. Claims that it is the node at that
/// place of the inline tree.
#[verifier::external_body]
fn inline_row(tree: &tree_sitter_md::MarkdownTree, index: usize, place: usize) -> (row: SyntaxRow)
    requires
        index < tree_blocks(*tree).len(),
        tree_inlines(*tree)[index as int] is Some,
        place < tree_inlines(*tree)[index as int]->0.len(),
    ensures
        row@ == tree_inlines(*tree)[index as int]->0[place as int],
{
    let mut cursor = tree.block_tree().walk();
    cursor.goto_descendant(index);
    let mut inner = tree.inline_tree(&cursor.node()).unwrap().walk();
    inner.goto_descendant(place);
    let (node, depth) = (inner.node(), inner.depth() as usize);
    let (start, end, column) = (node.start_byte(), node.end_byte(), node.start_position().column);
    SyntaxRow { kind: node.kind().to_owned(), named: node.is_named(), start, end, column, depth }
}

/// Lists the syntax that the parser finds in a source.
pub fn parse_syntax(source: &str) -> (tree: Option<SyntaxTree>)
    ensures
        match tree {
            Some(found) => markdown_syntax(source@) == Some(found@),
            None => markdown_syntax(source@) is None,
        },
{
    let tree = match parse_source(source) {
        None => return None,
        Some(tree) => tree,
    };
    let count: usize = block_count(&tree);
    let mut blocks: Vec<SyntaxRow> = Vec::new();
    let mut inlines: Vec<Option<Vec<SyntaxRow>>> = Vec::new();
    let mut index: usize = 0;
    while index < count
        invariant
            count == tree_blocks(tree).len(),
            count == tree_inlines(tree).len(),
            0 <= index <= count,
            blocks@.len() == index,
            inlines@.len() == index,
            forall|i: int| 0 <= i < index ==> (#[trigger] blocks@[i])@ == tree_blocks(tree)[i],
            forall|i: int|
                0 <= i < index ==> tree_inlines(tree)[i] == (match #[trigger] inlines@[i] {
                    Some(rows) => Some(row_views(rows@)),
                    None => None,
                }),
        decreases count - index,
    {
        blocks.push(block_row(&tree, index));
        let inline = match inline_count(&tree, index) {
            None => None,
            Some(number) => Some(inline_rows(&tree, index, number)),
        };
        inlines.push(inline);
        index += 1;
    }
    let found = SyntaxTree { blocks, inlines };
    proof {
        assert(row_views(blocks@) =~= tree_blocks(tree));
        assert(inline_views(inlines@) =~= tree_inlines(tree));
    }
    Some(found)
}

/// Lists the nodes of one inline tree.
fn inline_rows(tree: &tree_sitter_md::MarkdownTree, index: usize, number: usize) -> (rows: Vec<
    SyntaxRow,
>)
    requires
        index < tree_blocks(*tree).len(),
        tree_inlines(*tree)[index as int] matches Some(all) && number == all.len(),
    ensures
        tree_inlines(*tree)[index as int] == Some(row_views(rows@)),
{
    let ghost all = tree_inlines(*tree)[index as int]->0;
    let mut rows: Vec<SyntaxRow> = Vec::new();
    let mut place: usize = 0;
    while place < number
        invariant
            index < tree_blocks(*tree).len(),
            tree_inlines(*tree)[index as int] == Some(all),
            number == all.len(),
            0 <= place <= number,
            rows@.len() == place,
            forall|i: int| 0 <= i < place ==> (#[trigger] rows@[i])@ == all[i],
        decreases number - place,
    {
        rows.push(inline_row(tree, index, place));
        place += 1;
    }
    assert(row_views(rows@) =~= all);
    rows
}

/// Whether a row marks a piece of the source, and its columns can be counted.
pub open spec fn row_fits(source: Seq<char>, row: RowView) -> bool {
    is_slice(source, row.start as int, row.end as int) && row.column <= usize::MAX - 4 && row.column + (
    row.end - row.start) <= usize::MAX
}

/// Whether all rows of a list mark pieces of the source.
pub open spec fn rows_fit(source: Seq<char>, rows: Seq<RowView>) -> bool {
    forall|i: int| 0 <= i < rows.len() ==> row_fits(source, #[trigger] rows[i])
}

/// Whether a syntax belongs to a source: it has a block, an entry for the inline content of
/// each block, and all of its nodes mark pieces of the source.
pub open spec fn syntax_fits(source: Seq<char>, tree: SyntaxView) -> bool {
    &&& tree.blocks.len() > 0
    &&& tree.inlines.len() == tree.blocks.len()
    &&& rows_fit(source, tree.blocks)
    &&& forall|i: int|
        0 <= i < tree.inlines.len() ==> ((#[trigger] tree.inlines[i]) matches Some(rows)
            ==> rows.len() > 0 && rows_fit(source, rows))
}

fn check_rows(source: &str, rows: &Vec<SyntaxRow>) -> (fits: bool)
    ensures
        fits == rows_fit(source@, row_views(rows@)),
{
    let mut i: usize = 0;
    while i < rows.len()
        invariant
            0 <= i <= rows.len(),
            forall|j: int| 0 <= j < i ==> row_fits(source@, (#[trigger] rows@[j])@),
        decreases rows.len() - i,
    {
        let row = &rows[i];
        if !can_slice(source, row.start, row.end) || row.column > usize::MAX - 4 || row.end - row.start
            > usize::MAX - row.column {
            assert(!row_fits(source@, row_views(rows@)[i as int]));
            return false;
        }
        i += 1;
    }
    assert forall|j: int| 0 <= j < row_views(rows@).len() implies row_fits(
        source@,
        #[trigger] row_views(rows@)[j],
    ) by {
        assert(row_fits(source@, rows@[j]@));
    }
    true
}

/// Whether a syntax belongs to a source.
pub fn check_syntax(source: &str, tree: &SyntaxTree) -> (fits: bool)
    ensures
        fits == syntax_fits(source@, tree@),
{
    if tree.blocks.len() == 0 || tree.inlines.len() != tree.blocks.len() || !check_rows(
        source,
        &tree.blocks,
    ) {
        return false;
    }
    let mut i: usize = 0;
    while i < tree.inlines.len()
        invariant
            0 <= i <= tree.inlines.len(),
            forall|j: int|
                0 <= j < i ==> ((#[trigger] tree@.inlines[j]) matches Some(rows) ==> rows.len() > 0
                    && rows_fit(source@, rows)),
        decreases tree.inlines.len() - i,
    {
        match &tree.inlines[i] {
            None => {
                assert(tree@.inlines[i as int] is None);
            },
            Some(rows) => {
                assert(tree@.inlines[i as int] == Some(row_views(rows@)));
                if rows.len() == 0 || !check_rows(source, rows) {
                    return false;
                }
            },
        }
        i += 1;
    }
    true
}

} // verus!

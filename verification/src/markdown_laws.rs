//! What holds of every rendered document: that nothing which a syntax tree shows gets lost.

use vstd::prelude::*;
use crate::markdown::after_text;
use crate::markdown::rendered_document;
use crate::markdown::with_text;
use crate::markdown_model::MarkdownView;
use crate::markdown_render::block_content;
use crate::markdown_render::block_inline_content;
use crate::markdown_render::block_pieces;
use crate::markdown_render::block_run;
use crate::markdown_render::end_from;
use crate::markdown_render::children_of_kind;
use crate::markdown_render::decoded_entities;
use crate::markdown_render::inline_content;
use crate::markdown_render::inline_piece;
use crate::markdown_render::inline_run;
use crate::markdown_render::item_run;
use crate::markdown_render::list_piece;
use crate::markdown_render::named_children;
use crate::markdown_render::row_text;
use crate::markdown_render::siblings;
use crate::markdown_render::subtree_end;
use crate::markdown_render::with_task_marker;
use crate::markdown_syntax::row_fits;
use crate::markdown_syntax::rows_fit;
use crate::markdown_syntax::syntax_fits;
use crate::markdown_syntax::RowView;
use crate::markdown_syntax::SyntaxView;
use crate::markdown_text::is_slice;
use crate::markdown_text::slice;

verus! {

/// Whether one node lies inside another: every node from behind the outer one up to it lies
/// deeper than the outer one.
pub open spec fn inside(rows: Seq<RowView>, outer: int, inner: int) -> bool {
    &&& 0 <= outer < inner < rows.len()
    &&& forall|k: int| outer < k <= inner ==> (#[trigger] rows[k]).depth > rows[outer].depth
}

/// Whether a node lies right inside another one, with none between the two.
pub open spec fn right_inside(rows: Seq<RowView>, outer: int, inner: int) -> bool {
    inside(rows, outer, inner) && forall|k: int| #[trigger] inside(rows, outer, k) ==> !inside(rows, k, inner)
}

/// The kinds of blocks that show nothing: definitions, metadata, and the markers of quotes, lists
/// and tasks.
pub open spec fn renders_to_nothing(kind: Seq<char>) -> bool {
    ||| kind == "link_reference_definition"@
    ||| kind == "minus_metadata"@
    ||| kind == "plus_metadata"@
    ||| kind == "block_quote_marker"@
    ||| kind == "block_continuation"@
    ||| kind == "list_marker_dot"@
    ||| kind == "list_marker_minus"@
    ||| kind == "list_marker_parenthesis"@
    ||| kind == "list_marker_plus"@
    ||| kind == "list_marker_star"@
    ||| kind == "task_list_marker_checked"@
    ||| kind == "task_list_marker_unchecked"@
}

/// Whether a kind of block has no blocks inside it that are shown.
pub open spec fn is_closed(kind: Seq<char>) -> bool {
    ||| renders_to_nothing(kind)
    ||| kind == "paragraph"@
    ||| kind == "atx_heading"@
    ||| kind == "setext_heading"@
    ||| kind == "fenced_code_block"@
    ||| kind == "indented_code_block"@
    ||| kind == "thematic_break"@
    ||| kind == "html_block"@
    ||| kind == "pipe_table"@
}

/// Whether all that a block lies inside shows the blocks inside it: none of it is closed, and what
/// lies right inside a list is an item.
pub open spec fn is_open(rows: Seq<RowView>, node: int) -> bool {
    &&& forall|outer: int| #[trigger]
        inside(rows, outer, node) && outer > 0 ==> rows[outer].named && !is_closed(rows[outer].kind)
    &&& forall|list: int, item: int|
        list > 0 && rows[list].kind == "list"@ && #[trigger] right_inside(rows, list, item) && (item == node
            || inside(rows, item, node)) ==> rows[item].named && rows[item].kind == "list_item"@
}

/// Whether some piece, or one inside a quote or a list among them, is as wanted.
pub open spec fn somewhere(pieces: Seq<MarkdownView>, wanted: spec_fn(MarkdownView) -> bool) -> bool
    decreases pieces,
{
    exists|i: int| 0 <= i < pieces.len() && somewhere_in(#[trigger] pieces[i], wanted)
}

/// Whether a piece, or one inside it where it is a quote or a list, is as wanted.
pub open spec fn somewhere_in(piece: MarkdownView, wanted: spec_fn(MarkdownView) -> bool) -> bool
    decreases piece,
{
    ||| wanted(piece)
    ||| match piece {
        MarkdownView::BlockQuote { children } => somewhere(children, wanted),
        MarkdownView::OrderedList { start, items } => exists|j: int|
            0 <= j < items.len() && somewhere(#[trigger] items[j], wanted),
        MarkdownView::UnorderedList { items } => exists|j: int|
            0 <= j < items.len() && somewhere(#[trigger] items[j], wanted),
        _ => false,
    }
}

/// A subtree ends at the first node behind it that lies no deeper.
proof fn lemma_end_from(rows: Seq<RowView>, node: int, next: int)
    requires
        0 <= node < next <= rows.len(),
    ensures
        next <= end_from(rows, node, next) <= rows.len(),
        forall|k: int|
            next <= k < end_from(rows, node, next) ==> (#[trigger] rows[k]).depth > rows[node].depth,
        end_from(rows, node, next) < rows.len() ==> rows[end_from(rows, node, next)].depth
            <= rows[node].depth,
    decreases rows.len() - next,
{
    if !(next >= rows.len() || rows[next].depth <= rows[node].depth) {
        lemma_end_from(rows, node, next + 1);
    }
}

/// What lies inside a node is what its subtree holds.
pub proof fn lemma_inside_subtree(rows: Seq<RowView>, outer: int, inner: int)
    requires
        0 <= outer < inner < rows.len(),
    ensures
        inside(rows, outer, inner) <==> inner < subtree_end(rows, outer),
{
    lemma_end_from(rows, outer, outer + 1);
    if inside(rows, outer, inner) && subtree_end(rows, outer) <= inner {
        assert(rows[subtree_end(rows, outer)].depth > rows[outer].depth);
    }
}

/// The subtrees of the nodes inside a node end with its own, if not before.
proof fn lemma_nested_end(rows: Seq<RowView>, outer: int, inner: int)
    requires
        0 <= outer < inner < subtree_end(rows, outer),
        outer < rows.len(),
    ensures
        inner < subtree_end(rows, inner) <= subtree_end(rows, outer) <= rows.len(),
{
    lemma_end_from(rows, outer, outer + 1);
    lemma_end_from(rows, inner, inner + 1);
    let end = subtree_end(rows, outer);
    if end < subtree_end(rows, inner) {
        assert(rows[end].depth > rows[inner].depth);
        assert(rows[inner].depth > rows[outer].depth);
    }
}

proof fn lemma_somewhere_joined(
    front: Seq<MarkdownView>,
    back: Seq<MarkdownView>,
    wanted: spec_fn(MarkdownView) -> bool,
)
    requires
        somewhere(front, wanted) || somewhere(back, wanted),
    ensures
        somewhere(front + back, wanted),
{
    let all = front + back;
    if somewhere(front, wanted) {
        let i = choose|i: int| 0 <= i < front.len() && somewhere_in(#[trigger] front[i], wanted);
        assert(somewhere_in(all[i], wanted));
    } else {
        let i = choose|i: int| 0 <= i < back.len() && somewhere_in(#[trigger] back[i], wanted);
        assert(somewhere_in(all[front.len() + i], wanted));
    }
}

/// Whether a paragraph that is as wanted stays so with a text before it.
pub open spec fn allows_marker(wanted: spec_fn(MarkdownView) -> bool) -> bool {
    forall|children: Seq<MarkdownView>, text: Seq<char>|
        wanted(MarkdownView::Paragraph { children }) ==> wanted(
            MarkdownView::Paragraph { children: #[trigger] after_text(children, text) },
        )
}

/// Whether a block is to be found by what it renders to.
spec fn is_sought(
    source: Seq<char>,
    tree: SyntaxView,
    node: int,
    wanted: spec_fn(MarkdownView) -> bool,
) -> bool {
    &&& 0 < node < tree.blocks.len()
    &&& tree.blocks[node].named
    &&& tree.blocks[node].kind != "list_item"@
    &&& is_open(tree.blocks, node)
    &&& allows_marker(wanted)
    &&& somewhere(block_pieces(source, tree, node), wanted)
}

proof fn lemma_marker_keeps(
    source: Seq<char>,
    rows: Seq<RowView>,
    item: int,
    blocks: Seq<MarkdownView>,
    wanted: spec_fn(MarkdownView) -> bool,
)
    requires
        allows_marker(wanted),
        somewhere(blocks, wanted),
    ensures
        somewhere(with_task_marker(source, rows, item, blocks), wanted),
{
    let marked = with_task_marker(source, rows, item, blocks);
    let i = choose|i: int| 0 <= i < blocks.len() && somewhere_in(#[trigger] blocks[i], wanted);
    assert(marked.len() == blocks.len());
    if marked[i] != blocks[i] {
        assert(i == 0);
        assert(wanted(blocks[0]));
        assert(blocks[0] == (MarkdownView::Paragraph { children: blocks[0]->Paragraph_children }));
    }
    assert(somewhere_in(marked[i], wanted));
}

#[verifier::rlimit(40)]
proof fn lemma_block_shows(
    source: Seq<char>,
    tree: SyntaxView,
    block: int,
    node: int,
    wanted: spec_fn(MarkdownView) -> bool,
)
    requires
        is_sought(source, tree, node, wanted),
        0 < block <= node < subtree_end(tree.blocks, block),
        tree.blocks.len() <= usize::MAX,
    ensures
        tree.blocks[block].named,
        somewhere(block_pieces(source, tree, block), wanted),
    decreases tree.blocks.len() - block, 1int,
{
    let rows = tree.blocks;
    if block < node {
        lemma_inside_subtree(rows, block, node);
        assert(inside(rows, block, node));
        let kind = rows[block].kind;
        let pieces = block_pieces(source, tree, block);
        lemma_end_from(rows, block, block + 1);
        let plain = kind == "document"@ || kind == "section"@;
        if kind == "list"@ && !plain {
            lemma_items_show(source, tree, block, block + 1, node, wanted);
            let items = item_run(source, tree, block + 1, subtree_end(rows, block));
            assert(pieces[0] == list_piece(source, rows, block, items));
            let j = choose|j: int| 0 <= j < items.len() && somewhere(#[trigger] items[j], wanted);
            match pieces[0] {
                MarkdownView::OrderedList { start, items: held } => {
                    assert(held == items);
                    assert(somewhere(held[j], wanted));
                },
                MarkdownView::UnorderedList { items: held } => {
                    assert(held == items);
                    assert(somewhere(held[j], wanted));
                },
                _ => {
                    assert(false);
                },
            }
            assert(somewhere_in(pieces[0], wanted));
        } else {
            lemma_run_shows(source, tree, block, block + 1, node, wanted);
            let children = block_content(source, tree, block);
            assert(somewhere(children, wanted));
            if kind == "block_quote"@ && !plain {
                assert(pieces[0] == (MarkdownView::BlockQuote { children }));
                assert(somewhere_in(pieces[0], wanted));
            } else {
                assert(children.len() > 0);
                assert(pieces == children);
            }
        }
    }
}

proof fn lemma_run_shows(
    source: Seq<char>,
    tree: SyntaxView,
    outer: int,
    next: int,
    node: int,
    wanted: spec_fn(MarkdownView) -> bool,
)
    requires
        is_sought(source, tree, node, wanted),
        0 <= outer < next <= node < subtree_end(tree.blocks, outer),
        tree.blocks.len() <= usize::MAX,
    ensures
        somewhere(block_run(source, tree, next, subtree_end(tree.blocks, outer)), wanted),
    decreases tree.blocks.len() - next, 2int,
{
    let rows = tree.blocks;
    let limit = subtree_end(rows, outer);
    let after = subtree_end(rows, next);
    lemma_nested_end(rows, outer, next);
    let front = if rows[next].named {
        block_pieces(source, tree, next)
    } else {
        Seq::empty()
    };
    let back = block_run(source, tree, after, limit);
    assert(block_run(source, tree, next, limit) == front + back);
    if node < after {
        lemma_block_shows(source, tree, next, node, wanted);
    } else {
        lemma_run_shows(source, tree, outer, after, node, wanted);
    }
    lemma_somewhere_joined(front, back, wanted);
}

#[verifier::rlimit(40)]
proof fn lemma_items_show(
    source: Seq<char>,
    tree: SyntaxView,
    list: int,
    next: int,
    node: int,
    wanted: spec_fn(MarkdownView) -> bool,
)
    requires
        is_sought(source, tree, node, wanted),
        0 < list < next <= node < subtree_end(tree.blocks, list),
        list < tree.blocks.len() <= usize::MAX,
        tree.blocks[list].kind == "list"@,
        forall|k: int| list < k < next ==> !#[trigger] inside(tree.blocks, k, next),
    ensures
        ({
            let items = item_run(source, tree, next, subtree_end(tree.blocks, list));
            exists|j: int| 0 <= j < items.len() && somewhere(#[trigger] items[j], wanted)
        }),
    decreases tree.blocks.len() - next, 2int,
{
    let rows = tree.blocks;
    let limit = subtree_end(rows, list);
    let after = subtree_end(rows, next);
    lemma_nested_end(rows, list, next);
    lemma_end_from(rows, next, next + 1);
    lemma_inside_subtree(rows, list, next);
    let back = item_run(source, tree, after, limit);
    let all = item_run(source, tree, next, limit);
    let is_item = rows[next].named && rows[next].kind == "list_item"@;
    let item = with_task_marker(source, rows, next, block_content(source, tree, next));
    let front = if is_item {
        seq![item]
    } else {
        Seq::empty()
    };
    assert(all == front + back);
    if node < after {
        assert(right_inside(rows, list, next)) by {
            assert forall|k: int| #[trigger] inside(rows, list, k) implies !inside(rows, k, next) by {
                if k < next {
                    assert(!inside(rows, k, next));
                }
            }
        }
        if next < node {
            lemma_inside_subtree(rows, next, node);
            assert(inside(rows, next, node));
        }
        assert(is_item);
        lemma_run_shows(source, tree, next, next + 1, node, wanted);
        lemma_marker_keeps(source, rows, next, block_content(source, tree, next), wanted);
        assert(all[0] == item);
    } else {
        assert forall|k: int| list < k < after implies !#[trigger] inside(rows, k, after) by {
            if inside(rows, k, after) {
                if k < next {
                    assert(inside(rows, k, next));
                } else {
                    assert(rows[after].depth > rows[k].depth);
                    if k > next {
                        assert(rows[k].depth > rows[next].depth);
                    }
                }
            }
        }
        lemma_items_show(source, tree, list, after, node, wanted);
        let j = choose|j: int| 0 <= j < back.len() && somewhere(#[trigger] back[j], wanted);
        assert(all[front.len() + j] == back[j]);
    }
}

/// Whatever an open block renders to is in the rendered document, itself or inside a quote or a
/// list. A paragraph may have the text of a task marker before it.
pub proof fn lemma_no_block_is_lost(
    source: Seq<char>,
    tree: SyntaxView,
    node: int,
    wanted: spec_fn(MarkdownView) -> bool,
)
    requires
        tree.blocks.len() <= usize::MAX,
        0 < node < tree.blocks.len(),
        inside(tree.blocks, 0, node),
        tree.blocks[node].named,
        tree.blocks[node].kind != "list_item"@,
        is_open(tree.blocks, node),
        allows_marker(wanted),
        somewhere(block_pieces(source, tree, node), wanted),
    ensures
        somewhere(rendered_document(source, tree).blocks, wanted),
{
    lemma_inside_subtree(tree.blocks, 0, node);
    lemma_run_shows(source, tree, 0, 1, node, wanted);
}

/// Whether a piece is a paragraph with some inline content, or with a text before that content.
pub open spec fn is_paragraph_of(content: Seq<MarkdownView>) -> spec_fn(MarkdownView) -> bool {
    |piece: MarkdownView|
        piece is Paragraph && (piece->Paragraph_children == content || ends_with_texts_of(
            piece->Paragraph_children,
            content,
        ))
}

/// Whether one list of pieces is another with a text before it, joined to a first text.
pub open spec fn ends_with_texts_of(longer: Seq<MarkdownView>, content: Seq<MarkdownView>) -> bool {
    ||| longer.len() == content.len() + 1 && longer[0] is Text && longer.skip(1) == content
    ||| longer.len() == content.len() && content.len() > 0 && content[0] is Text && longer[0] is Text
        && longer.skip(1) == content.skip(1) && longer[0]->Text_text.len()
        >= content[0]->Text_text.len() && longer[0]->Text_text.skip(
        longer[0]->Text_text.len() - content[0]->Text_text.len(),
    ) == content[0]->Text_text
}

/// No paragraph of a syntax tree that lies in open blocks is missing from the rendered document.
pub proof fn lemma_no_paragraph_is_lost(source: Seq<char>, tree: SyntaxView, node: int)
    requires
        tree.blocks.len() <= usize::MAX,
        0 < node < tree.blocks.len(),
        inside(tree.blocks, 0, node),
        tree.blocks[node].named,
        tree.blocks[node].kind == "paragraph"@,
        is_open(tree.blocks, node),
    ensures
        somewhere(
            rendered_document(source, tree).blocks,
            is_paragraph_of(block_inline_content(source, tree, node)),
        ),
{
    let content = block_inline_content(source, tree, node);
    let wanted = is_paragraph_of(content);
    reveal_strlit("paragraph");
    reveal_strlit("list_item");
    reveal_strlit("document");
    reveal_strlit("section");
    assert("paragraph"@[0] == 'p' && "list_item"@[0] == 'l');
    assert("document"@[0] == 'd' && "section"@[0] == 's');
    let pieces = block_pieces(source, tree, node);
    assert(somewhere_in(pieces[0], wanted));
    assert(allows_marker(wanted)) by {
        assert forall|children: Seq<MarkdownView>, text: Seq<char>|
            wanted(MarkdownView::Paragraph { children }) implies wanted(
            MarkdownView::Paragraph { children: #[trigger] after_text(children, text) },
        ) by {
            lemma_after_text(children, text, content);
        }
    }
    lemma_no_block_is_lost(source, tree, node, wanted);
}

proof fn lemma_after_text(children: Seq<MarkdownView>, text: Seq<char>, content: Seq<MarkdownView>)
    requires
        children == content || ends_with_texts_of(children, content),
    ensures
        ends_with_texts_of(after_text(children, text), content),
{
    let after = after_text(children, text);
    if children.len() > 0 && children[0] is Text {
        let first = children[0]->Text_text;
        assert(after.skip(1) =~= children.skip(1));
        assert(after[0]->Text_text == text + first);
        if children == content {
            assert((text + first).skip(text.len() as int) =~= first);
        } else if children.len() == content.len() + 1 {
            assert(after.skip(1) =~= content);
        } else {
            let known = content[0]->Text_text;
            assert((text + first).skip((text + first).len() - known.len()) =~= first.skip(
                first.len() - known.len(),
            ));
        }
    } else {
        assert(after.skip(1) =~= children);
    }
}

/// What some blocks render to, one behind the other.
pub open spec fn shown_one_by_one(source: Seq<char>, tree: SyntaxView, blocks: Seq<usize>) -> Seq<MarkdownView>
    decreases blocks.len(),
{
    if blocks.len() == 0 {
        Seq::empty()
    } else {
        block_pieces(source, tree, blocks[0] as int) + shown_one_by_one(source, tree, blocks.drop_first())
    }
}

/// The piece of a block quote holds what the blocks right inside it render to, one behind the
/// other, and so does a document or a section without a piece of its own.
pub proof fn lemma_quote_holds_its_blocks(source: Seq<char>, tree: SyntaxView, node: int)
    requires
        0 <= node < tree.blocks.len() <= usize::MAX,
    ensures
        ({
            let kind = tree.blocks[node].kind;
            let shown = block_pieces(source, tree, node);
            let inner = shown_one_by_one(source, tree, named_children(tree.blocks, node));
            &&& kind == "block_quote"@ ==> shown.len() == 1 && shown[0] is BlockQuote
                && shown[0]->BlockQuote_children == inner
            &&& kind == "document"@ || kind == "section"@ ==> shown == inner
        }),
{
    let rows = tree.blocks;
    lemma_end_from(rows, node, node + 1);
    lemma_run_is_one_by_one(source, tree, node, node + 1);
    reveal_strlit("block_quote");
    reveal_strlit("document");
    reveal_strlit("section");
    reveal_strlit("paragraph");
    reveal_strlit("atx_heading");
    reveal_strlit("setext_heading");
    reveal_strlit("list");
    assert("block_quote"@[0] == 'b' && "document"@[0] == 'd' && "section"@[0] == 's');
    assert("paragraph"@[0] == 'p' && "atx_heading"@[0] == 'a' && "setext_heading"@[0] == 's');
    assert("list"@[0] == 'l');
}

proof fn lemma_run_is_one_by_one(source: Seq<char>, tree: SyntaxView, outer: int, next: int)
    requires
        0 <= outer < next <= subtree_end(tree.blocks, outer) <= tree.blocks.len() <= usize::MAX,
    ensures
        ({
            let limit = subtree_end(tree.blocks, outer);
            block_run(source, tree, next, limit) == shown_one_by_one(
                source,
                tree,
                siblings(tree.blocks, next, limit).filter(|child: usize| tree.blocks[child as int].named),
            )
        }),
    decreases tree.blocks.len() - next,
{
    let rows = tree.blocks;
    let limit = subtree_end(rows, outer);
    let keep = |child: usize| rows[child as int].named;
    let all = siblings(rows, next, limit);
    if next < limit {
        lemma_nested_end(rows, outer, next);
        let after = subtree_end(rows, next);
        let rest = siblings(rows, after, limit);
        lemma_run_is_one_by_one(source, tree, outer, after);
        assert(all == seq![next as usize] + rest);
        crate::markdown_render::lemma_filter_front(next as usize, rest, keep);
        if keep(next as usize) {
            let kept = all.filter(keep);
            assert(kept == seq![next as usize] + rest.filter(keep));
            assert(kept.drop_first() =~= rest.filter(keep));
        } else {
            assert(block_run(source, tree, next, limit) =~= block_run(source, tree, after, limit));
        }
    } else {
        reveal(Seq::filter);
        assert(all =~= Seq::<usize>::empty());
    }
}

/// The items of a list, numbered or not.
pub open spec fn items_in(piece: MarkdownView) -> Seq<Seq<MarkdownView>> {
    match piece {
        MarkdownView::OrderedList { start, items } => items,
        MarkdownView::UnorderedList { items } => items,
        _ => Seq::empty(),
    }
}

/// A list holds an item for each of its item nodes, in their order. An item holds what the blocks
/// right inside its node render to, with the text of a task marker before a first paragraph.
#[verifier::rlimit(40)]
pub proof fn lemma_list_holds_its_items(source: Seq<char>, tree: SyntaxView, node: int)
    requires
        0 <= node < tree.blocks.len() <= usize::MAX,
        tree.blocks[node].kind == "list"@,
    ensures
        ({
            let rows = tree.blocks;
            let shown = block_pieces(source, tree, node);
            let nodes = named_children(rows, node).filter(
                |child: usize| rows[child as int].kind == "list_item"@,
            );
            let items = items_in(shown[0]);
            &&& shown.len() == 1
            &&& shown[0] is OrderedList || shown[0] is UnorderedList
            &&& items.len() == nodes.len()
            &&& forall|j: int|
                #![trigger items[j]]
                0 <= j < items.len() ==> {
                    let inner = shown_one_by_one(source, tree, named_children(rows, nodes[j] as int));
                    &&& items[j].len() == inner.len()
                    &&& forall|k: int| 0 < k < inner.len() ==> #[trigger] items[j][k] == inner[k]
                    &&& inner.len() > 0 && !(inner[0] is Paragraph) ==> items[j][0] == inner[0]
                    &&& inner.len() > 0 && inner[0] is Paragraph ==> is_paragraph_of(
                        inner[0]->Paragraph_children,
                    )(items[j][0])
                }
        }),
{
    let rows = tree.blocks;
    let shown = block_pieces(source, tree, node);
    let limit = subtree_end(rows, node);
    let items = item_run(source, tree, node + 1, limit);
    let keep = |child: usize| rows[child as int].named && rows[child as int].kind == "list_item"@;
    reveal_strlit("document");
    reveal_strlit("section");
    reveal_strlit("paragraph");
    reveal_strlit("atx_heading");
    reveal_strlit("setext_heading");
    reveal_strlit("list");
    assert("document"@[0] == 'd' && "section"@[0] == 's');
    assert("paragraph"@[0] == 'p' && "atx_heading"@[0] == 'a' && "setext_heading"@[0] == 's');
    assert("list"@[0] == 'l');
    assert(shown[0] == list_piece(source, rows, node, items));
    lemma_end_from(rows, node, node + 1);
    lemma_items_of(source, tree, node, node + 1);
    let nodes = siblings(rows, node + 1, limit).filter(keep);
    lemma_filter_twice(
        siblings(rows, node + 1, limit),
        |child: usize| rows[child as int].named,
        |child: usize| rows[child as int].kind == "list_item"@,
        keep,
    );
    assert forall|j: int| #![trigger items[j]] 0 <= j < items.len() implies {
        let inner = shown_one_by_one(source, tree, named_children(rows, nodes[j] as int));
        &&& items[j].len() == inner.len()
        &&& forall|k: int| 0 < k < inner.len() ==> #[trigger] items[j][k] == inner[k]
        &&& inner.len() > 0 && !(inner[0] is Paragraph) ==> items[j][0] == inner[0]
        &&& inner.len() > 0 && inner[0] is Paragraph ==> is_paragraph_of(
            inner[0]->Paragraph_children,
        )(items[j][0])
    } by {
        let item = nodes[j] as int;
        let inner = block_content(source, tree, item);
        assert(nodes.contains(nodes[j]));
        crate::sequences::lemma_filter_members(siblings(rows, node + 1, limit), keep, nodes[j]);
        let n = siblings(rows, node + 1, limit).index_of(nodes[j]);
        crate::markdown_render::lemma_siblings_between(rows, node + 1, limit);
        assert(siblings(rows, node + 1, limit)[n] == nodes[j]);
        lemma_end_from(rows, item, item + 1);
        lemma_run_is_one_by_one(source, tree, item, item + 1);
        assert(inner == shown_one_by_one(source, tree, named_children(rows, item)));
        assert(items[j] == with_task_marker(source, rows, item, inner));
        if inner.len() > 0 && inner[0] is Paragraph && items[j][0] != inner[0] {
            let text = crate::markdown_render::row_text(
                source,
                rows[named_children(rows, item).filter(
                    |child: usize| crate::markdown_render::is_task_marker(rows[child as int].kind),
                )[0] as int],
            ) + " "@;
            lemma_after_text(inner[0]->Paragraph_children, text, inner[0]->Paragraph_children);
        }
    }
}

proof fn lemma_items_of(source: Seq<char>, tree: SyntaxView, list: int, next: int)
    requires
        0 <= list < next <= subtree_end(tree.blocks, list) <= tree.blocks.len() <= usize::MAX,
    ensures
        ({
            let rows = tree.blocks;
            let limit = subtree_end(rows, list);
            let items = item_run(source, tree, next, limit);
            let nodes = siblings(rows, next, limit).filter(
                |child: usize| rows[child as int].named && rows[child as int].kind == "list_item"@,
            );
            &&& items.len() == nodes.len()
            &&& forall|j: int|
                #![trigger items[j]]
                0 <= j < items.len() ==> items[j] == with_task_marker(
                    source,
                    rows,
                    nodes[j] as int,
                    block_content(source, tree, nodes[j] as int),
                )
        }),
    decreases tree.blocks.len() - next,
{
    let rows = tree.blocks;
    let limit = subtree_end(rows, list);
    let keep = |child: usize| rows[child as int].named && rows[child as int].kind == "list_item"@;
    let all = siblings(rows, next, limit);
    if next < limit {
        lemma_nested_end(rows, list, next);
        let after = subtree_end(rows, next);
        let rest = siblings(rows, after, limit);
        lemma_items_of(source, tree, list, after);
        assert(all == seq![next as usize] + rest);
        crate::markdown_render::lemma_filter_front(next as usize, rest, keep);
        let items = item_run(source, tree, next, limit);
        let back = item_run(source, tree, after, limit);
        let nodes = all.filter(keep);
        let front: int = if keep(next as usize) {
            1
        } else {
            0
        };
        assert forall|j: int| #![trigger items[j]] 0 <= j < items.len() implies items[j] == with_task_marker(
            source,
            rows,
            nodes[j] as int,
            block_content(source, tree, nodes[j] as int),
        ) by {
            if j >= front {
                assert(items[j] == back[j - front]);
                assert(nodes[j] == rest.filter(keep)[j - front]);
            }
        }
    } else {
        reveal(Seq::filter);
        assert(all =~= Seq::<usize>::empty());
    }
}

/// Filtering in two steps keeps what passes both.
proof fn lemma_filter_twice(
    items: Seq<usize>,
    first: spec_fn(usize) -> bool,
    second: spec_fn(usize) -> bool,
    both: spec_fn(usize) -> bool,
)
    requires
        forall|item: usize| #[trigger] both(item) <==> first(item) && second(item),
    ensures
        items.filter(first).filter(second) == items.filter(both),
    decreases items.len(),
{
    reveal(Seq::filter);
    if items.len() > 0 {
        let rest = items.drop_last();
        let last = items.last();
        lemma_filter_twice(rest, first, second, both);
        assert(both(last) <==> first(last) && second(last));
        if first(last) {
            crate::sequences::lemma_filter_push(rest.filter(first), second, last);
        }
    }
}

/// A heading renders to one piece with the inline content of the heading, whichever way it is
/// written.
pub proof fn lemma_heading_holds_its_text(source: Seq<char>, tree: SyntaxView, node: int)
    requires
        tree.blocks[node].kind == "atx_heading"@ || tree.blocks[node].kind == "setext_heading"@,
    ensures
        ({
            let shown = block_pieces(source, tree, node);
            &&& shown.len() == 1
            &&& shown[0] is Heading
            &&& shown[0]->Heading_children == block_inline_content(source, tree, node)
        }),
{
    reveal_strlit("document");
    reveal_strlit("section");
    reveal_strlit("paragraph");
    reveal_strlit("atx_heading");
    reveal_strlit("setext_heading");
    assert("document"@[0] == 'd' && "section"@[2] == 'c' && "paragraph"@[0] == 'p');
    assert("atx_heading"@[0] == 'a' && "setext_heading"@[0] == 's' && "setext_heading"@[2] == 't');
}

/// All text of some pieces, from front to end.
pub open spec fn flat_text(pieces: Seq<MarkdownView>) -> Seq<char>
    decreases pieces,
{
    if pieces.len() == 0 {
        Seq::empty()
    } else {
        flat_text(pieces.subrange(0, pieces.len() - 1)) + text_in(pieces[pieces.len() - 1])
    }
}

/// All text of an inline piece.
pub open spec fn text_in(piece: MarkdownView) -> Seq<char>
    decreases piece,
{
    match piece {
        MarkdownView::Text { text } => text,
        MarkdownView::InlineCode { code } => code,
        MarkdownView::Emphasis { children } => flat_text(children),
        MarkdownView::Strong { children } => flat_text(children),
        MarkdownView::Strikethrough { children } => flat_text(children),
        MarkdownView::Link { destination, children } => flat_text(children),
        _ => Seq::empty(),
    }
}

proof fn lemma_flat_push(pieces: Seq<MarkdownView>, last: MarkdownView)
    ensures
        flat_text(pieces.push(last)) == flat_text(pieces) + text_in(last),
{
    let all = pieces.push(last);
    assert(all.subrange(0, all.len() - 1) =~= pieces);
}

proof fn lemma_flat_joined(front: Seq<MarkdownView>, back: Seq<MarkdownView>)
    ensures
        flat_text(front + back) == flat_text(front) + flat_text(back),
    decreases back.len(),
{
    if back.len() == 0 {
        assert(front + back =~= front);
        assert(flat_text(front) + flat_text(back) =~= flat_text(front));
    } else {
        let rest = back.subrange(0, back.len() - 1);
        let last = back[back.len() - 1];
        lemma_flat_joined(front, rest);
        lemma_flat_push(front + rest, last);
        assert((front + rest).push(last) =~= front + back);
        assert(flat_text(front) + flat_text(rest) + text_in(last) =~= flat_text(front) + (flat_text(
            rest,
        ) + text_in(last)));
    }
}

/// A text that is put behind some pieces comes behind all their text.
pub proof fn lemma_text_behind(pieces: Seq<MarkdownView>, text: Seq<char>)
    ensures
        flat_text(with_text(pieces, text)) == flat_text(pieces) + text,
{
    if text.len() == 0 {
        assert(flat_text(pieces) + text =~= flat_text(pieces));
    } else if pieces.len() > 0 && pieces.last() is Text {
        let rest = pieces.drop_last();
        let last = pieces.last()->Text_text;
        lemma_flat_push(rest, MarkdownView::Text { text: last + text });
        assert(rest.push(pieces.last()) =~= pieces);
        lemma_flat_push(rest, pieces.last());
        assert(flat_text(rest) + (last + text) =~= flat_text(rest) + last + text);
    } else {
        lemma_flat_push(pieces, MarkdownView::Text { text });
    }
}

/// A text that is put before some pieces comes before all their text.
pub proof fn lemma_text_before(pieces: Seq<MarkdownView>, text: Seq<char>)
    ensures
        flat_text(after_text(pieces, text)) == text + flat_text(pieces),
{
    if pieces.len() > 0 && pieces[0] is Text {
        let rest = pieces.skip(1);
        let first = pieces[0];
        let joined = MarkdownView::Text { text: text + first->Text_text };
        assert(after_text(pieces, text) =~= seq![joined] + rest);
        assert(pieces =~= seq![first] + rest);
        lemma_flat_joined(seq![joined], rest);
        lemma_flat_joined(seq![first], rest);
        lemma_flat_push(Seq::empty(), joined);
        lemma_flat_push(Seq::empty(), first);
        assert(Seq::<MarkdownView>::empty().push(joined) =~= seq![joined]);
        assert(Seq::<MarkdownView>::empty().push(first) =~= seq![first]);
        assert(text + first->Text_text + flat_text(rest) =~= text + (first->Text_text + flat_text(rest)));
    } else {
        let piece = MarkdownView::Text { text };
        lemma_flat_joined(seq![piece], pieces);
        lemma_flat_push(Seq::empty(), piece);
        assert(Seq::<MarkdownView>::empty().push(piece) =~= seq![piece]);
    }
}

/// The kinds of inline nodes that are not shown by their text as it stands.
pub open spec fn is_marked_up(kind: Seq<char>) -> bool {
    ||| kind == "emphasis"@
    ||| kind == "strong_emphasis"@
    ||| kind == "strikethrough"@
    ||| kind == "code_span"@
    ||| kind == "inline_link"@
    ||| kind == "image"@
    ||| kind == "uri_autolink"@
    ||| kind == "email_autolink"@
    ||| kind == "hard_line_break"@
    ||| kind == "backslash_escape"@
    ||| kind == "entity_reference"@
    ||| kind == "numeric_character_reference"@
    ||| kind == "emphasis_delimiter"@
    ||| kind == "code_span_delimiter"@
}

pub(crate) proof fn lemma_inline_kinds_differ()
    ensures
        "emphasis"@.len() == 8,
        "strong_emphasis"@.len() == 15,
        "strikethrough"@.len() == 13,
        "code_span"@.len() == 9,
        "inline_link"@.len() == 11,
        "image"@.len() == 5,
        "uri_autolink"@.len() == 12,
        "email_autolink"@.len() == 14,
        "hard_line_break"@.len() == 15,
        "backslash_escape"@.len() == 16,
        "entity_reference"@.len() == 16,
        "numeric_character_reference"@.len() == 27,
        "emphasis_delimiter"@.len() == 18,
        "code_span_delimiter"@.len() == 19,
        "strong_emphasis"@[0] == 's',
        "hard_line_break"@[0] == 'h',
        "backslash_escape"@[0] == 'b',
        "entity_reference"@[0] == 'e',
{
    reveal_strlit("emphasis");
    reveal_strlit("strong_emphasis");
    reveal_strlit("strikethrough");
    reveal_strlit("code_span");
    reveal_strlit("inline_link");
    reveal_strlit("image");
    reveal_strlit("uri_autolink");
    reveal_strlit("email_autolink");
    reveal_strlit("hard_line_break");
    reveal_strlit("backslash_escape");
    reveal_strlit("entity_reference");
    reveal_strlit("numeric_character_reference");
    reveal_strlit("emphasis_delimiter");
    reveal_strlit("code_span_delimiter");
}

/// Emphasis of any kind keeps the text inside it, in a piece of that kind behind the earlier ones.
pub proof fn lemma_emphasis_keeps_text(
    source: Seq<char>,
    rows: Seq<RowView>,
    node: int,
    before: Seq<MarkdownView>,
)
    requires
        rows[node].kind == "emphasis"@ || rows[node].kind == "strong_emphasis"@ || rows[node].kind
            == "strikethrough"@,
    ensures
        ({
            let shown = inline_piece(source, rows, node, before);
            &&& shown.len() == before.len() + 1
            &&& shown.drop_last() == before
            &&& shown.last() is Emphasis <==> rows[node].kind == "emphasis"@
            &&& shown.last() is Strong <==> rows[node].kind == "strong_emphasis"@
            &&& shown.last() is Strikethrough <==> rows[node].kind == "strikethrough"@
            &&& flat_text(shown) == flat_text(before) + flat_text(inline_content(source, rows, node))
        }),
{
    lemma_inline_kinds_differ();
    let shown = inline_piece(source, rows, node, before);
    assert(shown.drop_last() =~= before);
    lemma_flat_push(before, shown.last());
}

/// Inline code is shown as code, without its backticks, in a piece behind the earlier ones.
pub proof fn lemma_code_is_shown_as_code(
    source: Seq<char>,
    rows: Seq<RowView>,
    node: int,
    before: Seq<MarkdownView>,
)
    requires
        rows[node].kind == "code_span"@,
    ensures
        ({
            let shown = inline_piece(source, rows, node, before);
            &&& shown.len() == before.len() + 1
            &&& shown.drop_last() == before
            &&& shown.last() is InlineCode
        }),
{
    lemma_inline_kinds_differ();
    assert(inline_piece(source, rows, node, before).drop_last() =~= before);
}

/// A link shows the content of its text and leads to its destination, with character references
/// replaced.
pub proof fn lemma_link_keeps_text(
    source: Seq<char>,
    rows: Seq<RowView>,
    node: int,
    before: Seq<MarkdownView>,
    text: usize,
    destination: usize,
)
    requires
        0 <= node < rows.len() <= usize::MAX,
        rows[node].kind == "inline_link"@,
        children_of_kind(rows, node, "link_text"@) == seq![text],
        children_of_kind(rows, node, "link_destination"@) == seq![destination],
    ensures
        ({
            let shown = inline_piece(source, rows, node, before);
            &&& shown.len() == before.len() + 1
            &&& shown.drop_last() == before
            &&& shown.last() is Link
            &&& shown.last()->Link_destination == decoded_entities(row_text(source, rows[destination as int]))
            &&& flat_text(shown) == flat_text(before) + flat_text(
                inline_content(source, rows, text as int),
            )
        }),
{
    lemma_inline_kinds_differ();
    let shown = inline_piece(source, rows, node, before);
    let texts = children_of_kind(rows, node, "link_text"@);
    crate::markdown_render::lemma_children_behind(rows, node);
    assert(texts[0] == text && texts.last() == text);
    assert(shown.drop_last() =~= before);
    lemma_flat_push(before, shown.last());
}

/// An image is shown by the content of its description.
pub proof fn lemma_image_keeps_description(
    source: Seq<char>,
    rows: Seq<RowView>,
    node: int,
    before: Seq<MarkdownView>,
)
    requires
        0 <= node < rows.len() <= usize::MAX,
        rows[node].kind == "image"@,
        children_of_kind(rows, node, "image_description"@).len() > 0,
    ensures
        inline_piece(source, rows, node, before) == before + inline_content(
            source,
            rows,
            children_of_kind(rows, node, "image_description"@)[0] as int,
        ),
{
    lemma_inline_kinds_differ();
    crate::markdown_render::lemma_children_behind(rows, node);
    let descriptions = children_of_kind(rows, node, "image_description"@);
    assert(node < descriptions[0] < rows.len());
}

/// An address in angle brackets links to itself: its text is the address without the brackets,
/// and its destination too, behind `mailto:` for an email address.
pub proof fn lemma_address_links_to_itself(
    source: Seq<char>,
    rows: Seq<RowView>,
    node: int,
    before: Seq<MarkdownView>,
    address: Seq<char>,
)
    requires
        rows[node].kind == "uri_autolink"@ || rows[node].kind == "email_autolink"@,
        row_text(source, rows[node]) == seq!['<'] + address + seq!['>'],
        address.len() > 0,
        address[0] != '<',
        address.last() != '>',
    ensures
        ({
            let shown = inline_piece(source, rows, node, before);
            &&& shown.len() == before.len() + 1
            &&& shown.drop_last() == before
            &&& shown.last() is Link
            &&& flat_text(shown) == flat_text(before) + address
            &&& rows[node].kind == "uri_autolink"@ ==> shown.last()->Link_destination == address
            &&& rows[node].kind == "email_autolink"@ ==> shown.last()->Link_destination == "mailto:"@
                + address
        }),
{
    lemma_inline_kinds_differ();
    let shown = inline_piece(source, rows, node, before);
    let text = row_text(source, rows[node]);
    let open = crate::markdown_text::just('<');
    let close = crate::markdown_text::just('>');
    crate::markdown_text::lemma_leading(text, open, 1);
    let opened = text.skip(1);
    assert(opened =~= address + seq!['>']);
    crate::markdown_text::lemma_trailing(opened, close, 1);
    assert(opened.take(opened.len() - 1) =~= address);
    assert(crate::markdown_text::unbracketed(text) =~= address);
    assert(shown.drop_last() =~= before);
    lemma_flat_push(before, shown.last());
    let inner = MarkdownView::Text { text: address };
    lemma_flat_push(Seq::empty(), inner);
    assert(Seq::<MarkdownView>::empty().push(inner) =~= seq![inner]);
    assert(flat_text(Seq::<MarkdownView>::empty()) + address =~= address);
}

/// A backslash escape is shown by the character behind the backslash, a character reference by
/// what it stands for, and a delimiter not at all.
pub proof fn lemma_escapes_keep_text(
    source: Seq<char>,
    rows: Seq<RowView>,
    node: int,
    before: Seq<MarkdownView>,
)
    ensures
        ({
            let kind = rows[node].kind;
            let text = row_text(source, rows[node]);
            let shown = inline_piece(source, rows, node, before);
            &&& kind == "backslash_escape"@ && text.len() > 0 && text[0] == '\\' ==> flat_text(shown)
                == flat_text(before) + text.skip(1)
            &&& kind == "entity_reference"@ || kind == "numeric_character_reference"@ ==> flat_text(shown)
                == flat_text(before) + decoded_entities(text)
            &&& kind == "emphasis_delimiter"@ || kind == "code_span_delimiter"@ ==> shown == before
            &&& kind == "hard_line_break"@ ==> shown == before.push(MarkdownView::LineBreak)
        }),
{
    lemma_inline_kinds_differ();
    let text = row_text(source, rows[node]);
    lemma_text_behind(before, crate::markdown_render::unescaped(text));
    lemma_text_behind(before, decoded_entities(text));
    if text.len() > 0 {
        assert(text.drop_first() =~= text.skip(1));
    }
}

/// Two pieces of a text that follow one another are one piece.
proof fn lemma_slices_join(source: Seq<char>, start: int, middle: int, end: int)
    requires
        is_slice(source, start, middle),
        is_slice(source, middle, end),
    ensures
        slice(source, start, end) == slice(source, start, middle) + slice(source, middle, end),
{
    let bytes = vstd::utf8::encode_utf8(source);
    vstd::utf8::encode_utf8_valid_utf8(source);
    let tail = bytes.subrange(start, bytes.len() as int);
    vstd::utf8::valid_utf8_split(bytes, start);
    lemma_boundary_in_tail(bytes, start, end);
    vstd::utf8::valid_utf8_split(tail, end - start);
    let whole = tail.subrange(0, end - start);
    assert(whole =~= bytes.subrange(start, end));
    lemma_boundary_in_tail(bytes, start, middle);
    assert(vstd::utf8::is_char_boundary(whole, middle - start)) by {
        if middle == start || middle == end {
            vstd::utf8::is_char_boundary_start_end_of_seq(whole);
        } else {
            vstd::utf8::is_char_boundary_iff_not_is_continuation_byte(whole, middle - start);
            vstd::utf8::is_char_boundary_iff_not_is_continuation_byte(bytes, middle);
            assert(whole[middle - start] == bytes[middle]);
        }
    }
    vstd::utf8::decode_utf8_split(whole, middle - start);
    assert(whole.subrange(0, middle - start) =~= bytes.subrange(start, middle));
    assert(whole.subrange(middle - start, whole.len() as int) =~= bytes.subrange(middle, end));
}

proof fn lemma_boundary_in_tail(bytes: Seq<u8>, start: int, place: int)
    requires
        vstd::utf8::valid_utf8(bytes),
        0 <= start <= place <= bytes.len(),
        vstd::utf8::is_char_boundary(bytes, start),
        vstd::utf8::is_char_boundary(bytes, place),
    ensures
        vstd::utf8::valid_utf8(bytes.subrange(start, bytes.len() as int)),
        vstd::utf8::is_char_boundary(bytes.subrange(start, bytes.len() as int), place - start),
{
    let tail = bytes.subrange(start, bytes.len() as int);
    vstd::utf8::valid_utf8_split(bytes, start);
    if start < place < bytes.len() {
        vstd::utf8::is_char_boundary_iff_not_is_continuation_byte(bytes, place);
        vstd::utf8::is_char_boundary_iff_not_is_continuation_byte(tail, place - start);
        assert(tail[place - start] == bytes[place]);
    } else {
        vstd::utf8::is_char_boundary_start_end_of_seq(tail);
    }
}

/// Whether the nodes of an inline tree mark pieces of the source as a tree does: those inside a
/// node within its piece, and those that follow one another behind one another.
pub open spec fn is_nested(rows: Seq<RowView>) -> bool {
    &&& forall|outer: int, inner: int| #[trigger]
        inside(rows, outer, inner) ==> rows[outer].start <= rows[inner].start && rows[inner].end
            <= rows[outer].end
    &&& forall|a: int, b: int|
        0 <= a < b < rows.len() && !#[trigger] inside(rows, a, b) ==> rows[a].end <= rows[b].start
}

/// Inline content without any markup is shown by its text as it stands, whatever nodes the parser
/// finds in it.
pub proof fn lemma_plain_text_is_kept(source: Seq<char>, rows: Seq<RowView>, node: int)
    requires
        0 <= node < rows.len(),
        rows_fit(source, rows),
        is_nested(rows),
        forall|k: int| 0 <= k < rows.len() ==> !is_marked_up((#[trigger] rows[k]).kind),
    ensures
        flat_text(inline_content(source, rows, node)) == row_text(source, rows[node]),
    decreases rows.len() - node, 0int,
{
    let start = rows[node].start as int;
    let end = rows[node].end as int;
    let limit = subtree_end(rows, node);
    assert(row_fits(source, rows[node]));
    lemma_end_from(rows, node, node + 1);
    if node + 1 < limit {
        lemma_inside_subtree(rows, node, node + 1);
        assert(inside(rows, node, node + 1));
    }
    lemma_plain_run_is_kept(source, rows, node, node + 1, start, Seq::empty());
    let (rendered, offset) = inline_run(source, rows, node + 1, limit, start, Seq::empty());
    lemma_text_behind(rendered, slice(source, offset, end));
    assert(flat_text(Seq::<MarkdownView>::empty()) + slice(source, start, end) =~= slice(
        source,
        start,
        end,
    ));
    if offset == end {
        lemma_empty_slice(source, end);
        assert(flat_text(rendered) + slice(source, end, end) =~= flat_text(rendered));
    }
}

proof fn lemma_empty_slice(source: Seq<char>, place: int)
    requires
        is_slice(source, place, place),
    ensures
        slice(source, place, place) == Seq::<char>::empty(),
{
    let none = vstd::utf8::encode_utf8(source).subrange(place, place);
    assert(none =~= Seq::<u8>::empty());
    assert(vstd::utf8::decode_utf8(none) =~= Seq::<char>::empty());
}

#[verifier::rlimit(40)]
proof fn lemma_plain_run_is_kept(
    source: Seq<char>,
    rows: Seq<RowView>,
    node: int,
    next: int,
    offset: int,
    rendered: Seq<MarkdownView>,
)
    requires
        0 <= node < next <= subtree_end(rows, node) <= rows.len(),
        rows_fit(source, rows),
        is_nested(rows),
        forall|k: int| 0 <= k < rows.len() ==> !is_marked_up((#[trigger] rows[k]).kind),
        is_slice(source, offset, rows[node].end as int),
        next < subtree_end(rows, node) ==> offset <= rows[next].start,
    ensures
        ({
            let end = rows[node].end as int;
            let (after, place) = inline_run(
                source,
                rows,
                next,
                subtree_end(rows, node),
                offset,
                rendered,
            );
            &&& is_slice(source, place, end)
            &&& flat_text(after) + slice(source, place, end) == flat_text(rendered) + slice(
                source,
                offset,
                end,
            )
        }),
    decreases rows.len() - next, 2int,
{
    let end = rows[node].end as int;
    let limit = subtree_end(rows, node);
    if next < limit {
        let start = rows[next].start as int;
        let stop = rows[next].end as int;
        let text = row_text(source, rows[next]);
        let following = subtree_end(rows, next);
        lemma_nested_end(rows, node, next);
        lemma_inside_subtree(rows, node, next);
        assert(inside(rows, node, next));
        assert(row_fits(source, rows[next]) && row_fits(source, rows[node]));
        let before = if offset < start {
            with_text(rendered, slice(source, offset, start))
        } else {
            rendered
        };
        lemma_text_behind(rendered, slice(source, offset, start));
        if offset == start {
            lemma_empty_slice(source, start);
            assert(flat_text(rendered) + slice(source, start, start) =~= flat_text(rendered));
        }
        assert(flat_text(before) == flat_text(rendered) + slice(source, offset, start));
        let shown = inline_piece(source, rows, next, before);
        assert(flat_text(shown) == flat_text(before) + text) by {
            assert(!is_marked_up(rows[next].kind));
            lemma_text_behind(before, text);
            let children = inline_content(source, rows, next);
            lemma_plain_text_is_kept(source, rows, next);
            lemma_flat_joined(before, children);
        }
        lemma_slices_join(source, offset, start, end);
        lemma_slices_join(source, start, stop, end);
        if following < limit {
            lemma_inside_subtree(rows, next, following);
            assert(!inside(rows, next, following));
        }
        lemma_plain_run_is_kept(source, rows, node, following, stop, shown);
        assert(flat_text(rendered) + slice(source, offset, start) + text + slice(source, stop, end)
            =~= flat_text(rendered) + (slice(source, offset, start) + (text + slice(source, stop, end))));
    }
}

/// A paragraph without markup shows the text of its inline content as it stands; one without
/// inline content shows its own text, without white space at its end.
pub proof fn lemma_plain_paragraph_shows_its_text(source: Seq<char>, tree: SyntaxView, node: int)
    requires
        syntax_fits(source, tree),
        0 <= node < tree.blocks.len() <= usize::MAX,
    ensures
        ({
            let inlines = children_of_kind(tree.blocks, node, "inline"@);
            let shown = block_inline_content(source, tree, node);
            &&& inlines.len() > 0 ==> (tree.inlines[inlines[0] as int] matches Some(rows) ==> is_nested(rows)
                && (forall|k: int| 0 <= k < rows.len() ==> !is_marked_up((#[trigger] rows[k]).kind))
                ==> flat_text(shown) == row_text(source, rows[0]))
            &&& inlines.len() == 0 ==> {
                let text = row_text(source, tree.blocks[node]);
                let kept = flat_text(shown);
                &&& kept.len() <= text.len()
                &&& kept == text.take(kept.len() as int)
                &&& kept.len() > 0 ==> !crate::markdown_text::is_white(kept.last())
                &&& forall|k: int| kept.len() <= k < text.len() ==> crate::markdown_text::is_white(
                    #[trigger] text[k],
                )
            }
        }),
{
    let inlines = children_of_kind(tree.blocks, node, "inline"@);
    crate::markdown_render::lemma_children_behind(tree.blocks, node);
    if inlines.len() > 0 {
        assert(node < inlines[0] < tree.blocks.len());
        if let Some(rows) = tree.inlines[inlines[0] as int] {
            if is_nested(rows) && (forall|k: int|
                0 <= k < rows.len() ==> !is_marked_up((#[trigger] rows[k]).kind)) {
                lemma_plain_text_is_kept(source, rows, 0);
            }
        }
    } else {
        let text = row_text(source, tree.blocks[node]);
        let piece = MarkdownView::Text { text: crate::markdown_text::trimmed_end(text) };
        lemma_flat_push(Seq::empty(), piece);
        assert(Seq::<MarkdownView>::empty().push(piece) =~= seq![piece]);
        assert(flat_text(Seq::<MarkdownView>::empty()) + crate::markdown_text::trimmed_end(text)
            =~= crate::markdown_text::trimmed_end(text));
        lemma_trailing_run(text, crate::markdown_text::white_space());
    }
}

/// What is cut off the end of a text is the longest run there that passes.
pub(crate) proof fn lemma_trailing_run(text: Seq<char>, pass: spec_fn(char) -> bool)
    ensures
        ({
            let kept = text.len() - crate::markdown_text::trailing(text, pass);
            &&& 0 <= kept <= text.len()
            &&& kept > 0 ==> !pass(text[kept - 1])
            &&& forall|k: int| kept <= k < text.len() ==> pass(#[trigger] text[k])
        }),
    decreases text.len(),
{
    crate::markdown_text::lemma_trailing_bounded(text, pass);
    if text.len() > 0 && pass(text.last()) {
        let rest = text.drop_last();
        lemma_trailing_run(rest, pass);
        let kept = text.len() - crate::markdown_text::trailing(text, pass);
        assert forall|k: int| kept <= k < text.len() implies pass(#[trigger] text[k]) by {
            if k < rest.len() {
                assert(rest[k] == text[k]);
            }
        }
    }
}

/// What is cut off the front of a text is the longest run there that passes.
pub(crate) proof fn lemma_leading_run(text: Seq<char>, pass: spec_fn(char) -> bool)
    ensures
        ({
            let count = crate::markdown_text::leading(text, pass) as int;
            &&& count <= text.len()
            &&& count < text.len() ==> !pass(text[count])
            &&& forall|k: int| 0 <= k < count ==> pass(#[trigger] text[k])
        }),
    decreases text.len(),
{
    if text.len() > 0 && pass(text[0]) {
        let rest = text.drop_first();
        lemma_leading_run(rest, pass);
        let count = crate::markdown_text::leading(text, pass) as int;
        assert forall|k: int| 0 <= k < count implies pass(#[trigger] text[k]) by {
            if k > 0 {
                assert(text[k] == rest[k - 1]);
            }
        }
    }
}

/// Code, tables, HTML and breaks render to one piece each: tables and HTML to code with their text
/// as it stands. What is skipped renders to nothing.
pub proof fn lemma_leaf_blocks(source: Seq<char>, tree: SyntaxView, node: int)
    ensures
        ({
            let kind = tree.blocks[node].kind;
            let shown = block_pieces(source, tree, node);
            &&& kind == "html_block"@ || kind == "pipe_table"@ ==> shown.len() == 1
                && shown[0] is CodeBlock && shown[0]->language is None && shown[0]->CodeBlock_code
                == row_text(source, tree.blocks[node])
            &&& kind == "thematic_break"@ ==> shown.len() == 1 && shown[0] is ThematicBreak
            &&& kind == "indented_code_block"@ ==> shown.len() == 1 && shown[0] is CodeBlock
                && shown[0]->language is None
            &&& kind == "fenced_code_block"@ ==> shown.len() == 1 && shown[0] is CodeBlock
        }),
{
    lemma_block_kinds_differ();
}

pub(crate) proof fn lemma_block_kinds_differ()
    ensures
        "document"@.len() == 8,
        "section"@.len() == 7,
        "paragraph"@.len() == 9,
        "atx_heading"@.len() == 11,
        "setext_heading"@.len() == 14,
        "list"@.len() == 4,
        "block_quote"@.len() == 11,
        "fenced_code_block"@.len() == 17,
        "indented_code_block"@.len() == 19,
        "thematic_break"@.len() == 14,
        "html_block"@.len() == 10,
        "pipe_table"@.len() == 10,
        "atx_heading"@[0] == 'a',
        "block_quote"@[0] == 'b',
        "setext_heading"@[0] == 's',
        "thematic_break"@[0] == 't',
        "html_block"@[0] == 'h',
        "pipe_table"@[0] == 'p',
{
    reveal_strlit("document");
    reveal_strlit("section");
    reveal_strlit("paragraph");
    reveal_strlit("atx_heading");
    reveal_strlit("setext_heading");
    reveal_strlit("list");
    reveal_strlit("block_quote");
    reveal_strlit("fenced_code_block");
    reveal_strlit("indented_code_block");
    reveal_strlit("thematic_break");
    reveal_strlit("html_block");
    reveal_strlit("pipe_table");
}

/// A heading with number signs has the level that its marker names.
pub proof fn lemma_heading_level(source: Seq<char>, tree: SyntaxView, node: int, level: u8)
    requires
        tree.blocks[node].kind == "atx_heading"@,
        named_children(tree.blocks, node).len() > 0,
        tree.blocks[named_children(tree.blocks, node)[0] as int].kind == "atx_h"@
            + crate::text::decimal_text(level as nat) + "_marker"@,
    ensures
        block_pieces(source, tree, node).len() == 1,
        block_pieces(source, tree, node)[0] is Heading,
        block_pieces(source, tree, node)[0]->level == level,
{
    lemma_block_kinds_differ();
    let digits = crate::text::decimal_text(level as nat);
    let prefix = "atx_h"@;
    let suffix = "_marker"@;
    let kind = tree.blocks[named_children(tree.blocks, node)[0] as int].kind;
    crate::numbers::lemma_digits_round_trip(level as nat);
    assert(kind.take(prefix.len() as int) =~= prefix);
    assert(kind.skip(kind.len() - suffix.len()) =~= suffix);
    assert(kind.subrange(prefix.len() as int, kind.len() - suffix.len()) =~= digits);
    assert(digits[0] != '+') by {
        assert(crate::numbers::is_digit(digits[0]));
    }
}

/// An underlined heading has level one or two, as its first underline says.
pub proof fn lemma_underlined_heading_level(source: Seq<char>, tree: SyntaxView, node: int, first: int)
    requires
        tree.blocks[node].kind == "setext_heading"@,
        0 <= first < named_children(tree.blocks, node).len(),
        crate::markdown_render::is_underline(
            tree.blocks[named_children(tree.blocks, node)[first] as int].kind,
        ),
        forall|i: int|
            0 <= i < first ==> !crate::markdown_render::is_underline(
                tree.blocks[#[trigger] named_children(tree.blocks, node)[i] as int].kind,
            ),
    ensures
        ({
            let underline = tree.blocks[named_children(tree.blocks, node)[first] as int].kind;
            let shown = block_pieces(source, tree, node);
            &&& shown.len() == 1 && shown[0] is Heading
            &&& underline == "setext_h1_underline"@ ==> shown[0]->level == 1
            &&& underline == "setext_h2_underline"@ ==> shown[0]->level == 2
        }),
{
    lemma_block_kinds_differ();
    reveal_strlit("setext_h1_underline");
    reveal_strlit("setext_h2_underline");
    assert("setext_h1_underline"@[8] == '1' && "setext_h2_underline"@[8] == '2');
    let named = named_children(tree.blocks, node);
    let keep = |child: usize| crate::markdown_render::is_underline(tree.blocks[child as int].kind);
    lemma_first_that_passes(named, keep, first);
}

/// The first item that passes is the first of those that do.
pub(crate) proof fn lemma_first_that_passes(items: Seq<usize>, keep: spec_fn(usize) -> bool, first: int)
    requires
        0 <= first < items.len(),
        keep(items[first]),
        forall|i: int| 0 <= i < first ==> !keep(#[trigger] items[i]),
    ensures
        items.filter(keep).len() > 0,
        items.filter(keep)[0] == items[first],
{
    let places = crate::sequences::lemma_filter_places(items, keep);
    assert(places.contains(first));
    let k = places.index_of(first);
    let start = places[0];
    assert(places.contains(start));
    assert(keep(items[start]));
    if k > 0 {
        assert(places[0] < places[k]);
    }
}

/// What is skipped renders to nothing.
pub proof fn lemma_skipped_blocks_render_to_nothing(source: Seq<char>, tree: SyntaxView, node: int)
    requires
        renders_to_nothing(tree.blocks[node].kind),
    ensures
        block_pieces(source, tree, node).len() == 0,
{
    lemma_block_kinds_differ();
    reveal_strlit("fenced_code_block");
    reveal_strlit("indented_code_block");
    assert("fenced_code_block"@[0] == 'f' && "indented_code_block"@[0] == 'i');
    reveal_strlit("link_reference_definition");
    reveal_strlit("minus_metadata");
    reveal_strlit("plus_metadata");
    reveal_strlit("block_quote_marker");
    reveal_strlit("block_continuation");
    reveal_strlit("list_marker_dot");
    reveal_strlit("list_marker_minus");
    reveal_strlit("list_marker_parenthesis");
    reveal_strlit("list_marker_plus");
    reveal_strlit("list_marker_star");
    reveal_strlit("task_list_marker_checked");
    reveal_strlit("task_list_marker_unchecked");
    assert("link_reference_definition"@.len() == 25 && "link_reference_definition"@[0] == 'l');
    assert("minus_metadata"@.len() == 14 && "minus_metadata"@[0] == 'm');
    assert("plus_metadata"@.len() == 13 && "plus_metadata"@[0] == 'p');
    assert("block_quote_marker"@.len() == 18 && "block_quote_marker"@[0] == 'b');
    assert("block_continuation"@.len() == 18 && "block_continuation"@[0] == 'b');
    assert("list_marker_dot"@.len() == 15 && "list_marker_dot"@[0] == 'l');
    assert("list_marker_minus"@.len() == 17 && "list_marker_minus"@[0] == 'l');
    assert("list_marker_parenthesis"@.len() == 23 && "list_marker_parenthesis"@[0] == 'l');
    assert("list_marker_plus"@.len() == 16 && "list_marker_plus"@[0] == 'l');
    assert("list_marker_star"@.len() == 16 && "list_marker_star"@[0] == 'l');
    assert("task_list_marker_checked"@.len() == 24 && "task_list_marker_checked"@[0] == 't');
    assert("task_list_marker_unchecked"@.len() == 26 && "task_list_marker_unchecked"@[0] == 't');
}

/// A block of another kind that holds nothing to show is shown by its text, without white space at
/// its end.
pub proof fn lemma_unknown_block_shows_its_text(source: Seq<char>, tree: SyntaxView, node: int)
    requires
        0 <= node < tree.blocks.len() <= usize::MAX,
        !is_closed(tree.blocks[node].kind),
        tree.blocks[node].kind != "document"@,
        tree.blocks[node].kind != "section"@,
        tree.blocks[node].kind != "list"@,
        tree.blocks[node].kind != "block_quote"@,
        named_children(tree.blocks, node).len() == 0,
    ensures
        ({
            let shown = block_pieces(source, tree, node);
            &&& shown.len() == 1
            &&& shown[0] is Paragraph
            &&& shown[0]->Paragraph_children == seq![
                MarkdownView::Text {
                    text: crate::markdown_text::trimmed_end(row_text(source, tree.blocks[node])),
                },
            ]
        }),
{
    lemma_end_from(tree.blocks, node, node + 1);
    lemma_run_is_one_by_one(source, tree, node, node + 1);
    assert(block_content(source, tree, node) == shown_one_by_one(
        source,
        tree,
        named_children(tree.blocks, node),
    ));
}

/// The named children of a node are the named nodes right inside it, in their order and each once.
#[verifier::rlimit(40)]
pub proof fn lemma_named_children(rows: Seq<RowView>, node: int)
    requires
        0 <= node < rows.len() <= usize::MAX,
    ensures
        forall|child: usize| #[trigger]
            named_children(rows, node).contains(child) <==> right_inside(rows, node, child as int)
                && rows[child as int].named,
        forall|i: int, j: int|
            0 <= i < j < named_children(rows, node).len() ==> #[trigger] named_children(rows, node)[i]
                < #[trigger] named_children(rows, node)[j],
{
    let limit = subtree_end(rows, node);
    let all = siblings(rows, node + 1, limit);
    let keep = |child: usize| rows[child as int].named;
    lemma_end_from(rows, node, node + 1);
    lemma_siblings(rows, node, node + 1);
    crate::sorting::lemma_filter_increasing(all, |a: usize, b: usize| a < b, keep);
    assert forall|child: usize| #[trigger] named_children(rows, node).contains(child) <==> right_inside(
        rows,
        node,
        child as int,
    ) && rows[child as int].named by {
        crate::sequences::lemma_filter_members(all, keep, child);
        let c = child as int;
        if node < c < rows.len() {
            lemma_inside_subtree(rows, node, c);
        }
        if all.contains(child) {
            assert forall|k: int| #[trigger] inside(rows, node, k) implies !inside(rows, k, c) by {
                if inside(rows, k, c) {
                    assert(node + 1 <= k < c);
                }
            }
        }
        if right_inside(rows, node, c) {
            assert forall|k: int| node + 1 <= k < c implies !#[trigger] inside(rows, k, c) by {
                assert(inside(rows, node, k)) by {
                    assert forall|l: int| node < l <= k implies (#[trigger] rows[l]).depth
                        > rows[node].depth by {}
                }
            }
        }
    }
}

/// Siblings from a place on are the nodes up to the end of their parent that lie inside none of
/// those before them.
#[verifier::rlimit(40)]
proof fn lemma_siblings(rows: Seq<RowView>, node: int, next: int)
    requires
        0 <= node < next <= subtree_end(rows, node) <= rows.len() <= usize::MAX,
    ensures
        ({
            let all = siblings(rows, next, subtree_end(rows, node));
            &&& forall|child: usize| #[trigger]
                all.contains(child) <==> next <= child < subtree_end(rows, node) && forall|k: int|
                    next <= k < child ==> !#[trigger] inside(rows, k, child as int)
            &&& crate::sorting::increasing(all, |a: usize, b: usize| a < b)
        }),
    decreases rows.len() - next,
{
    let limit = subtree_end(rows, node);
    let all = siblings(rows, next, limit);
    if next < limit {
        lemma_nested_end(rows, node, next);
        lemma_end_from(rows, next, next + 1);
        let after = subtree_end(rows, next);
        let rest = siblings(rows, after, limit);
        lemma_siblings(rows, node, after);
        assert(all == seq![next as usize] + rest);
        assert forall|child: usize| #[trigger] all.contains(child) <==> next <= child < limit && forall|k: int|
            next <= k < child ==> !#[trigger] inside(rows, k, child as int) by {
            let c = child as int;
            if all.contains(child) {
                let n = all.index_of(child);
                if n > 0 {
                    assert(rest[n - 1] == child);
                    assert(rest.contains(child));
                    assert forall|k: int| next <= k < c implies !#[trigger] inside(rows, k, c) by {
                        if k < after && inside(rows, k, c) {
                            if after < c {
                                assert(rows[after].depth > rows[k].depth);
                            }
                            assert(rows[after].depth > rows[k].depth);
                            if k > next {
                                assert(rows[k].depth > rows[next].depth);
                            }
                        }
                    }
                }
            }
            if next <= c < limit && forall|k: int| next <= k < c ==> !#[trigger] inside(rows, k, c) {
                if c == next {
                    assert(all[0] == child);
                } else {
                    lemma_inside_subtree(rows, next, c);
                    assert(!inside(rows, next, c));
                    assert(rest.contains(child));
                    let n = rest.index_of(child);
                    assert(all[n + 1] == child);
                }
            }
        }
        assert forall|i: int, j: int| 0 <= i < j < all.len() implies (#[trigger] all[i]) < (
        #[trigger] all[j]) by {
            assert(all[j] == rest[j - 1]);
            assert(rest.contains(rest[j - 1]));
            if i > 0 {
                assert(all[i] == rest[i - 1]);
            }
        }
    } else {
        assert(all =~= Seq::<usize>::empty());
    }
}

/// A heading whose marker names no level, and a list without a marker, have the level and the kind
/// that are plain: level one, and no numbers. A link without a text or a destination has none.
pub proof fn lemma_plain_defaults(
    source: Seq<char>,
    rows: Seq<RowView>,
    node: int,
    before: Seq<MarkdownView>,
    items: Seq<Seq<MarkdownView>>,
)
    ensures
        named_children(rows, node).len() == 0 ==> crate::markdown_render::atx_level(rows, node) == 1,
        named_children(rows, node).len() == 0 ==> crate::markdown_render::setext_level(rows, node) == 1,
        named_children(rows, node).len() == 0 ==> list_piece(source, rows, node, items) is UnorderedList,
        rows[node].kind == "inline_link"@ && children_of_kind(rows, node, "link_text"@).len() == 0
            ==> inline_piece(source, rows, node, before).last()->Link_children.len() == 0,
        rows[node].kind == "inline_link"@ && children_of_kind(rows, node, "link_destination"@).len() == 0
            ==> inline_piece(source, rows, node, before).last()->Link_destination.len() == 0,
{
    reveal(Seq::filter);
    lemma_inline_kinds_differ();
}

/// The children of a kind are the named children of that kind, in their order.
pub proof fn lemma_children_of_kind(rows: Seq<RowView>, node: int, kind: Seq<char>)
    requires
        0 <= node < rows.len() <= usize::MAX,
    ensures
        forall|child: usize| #[trigger]
            children_of_kind(rows, node, kind).contains(child) <==> right_inside(rows, node, child as int)
                && rows[child as int].named && rows[child as int].kind == kind,
        forall|i: int, j: int|
            0 <= i < j < children_of_kind(rows, node, kind).len() ==> #[trigger] children_of_kind(
                rows,
                node,
                kind,
            )[i] < #[trigger] children_of_kind(rows, node, kind)[j],
{
    let all = named_children(rows, node);
    let keep = |child: usize| rows[child as int].kind == kind;
    lemma_named_children(rows, node);
    crate::sorting::lemma_filter_increasing(all, |a: usize, b: usize| a < b, keep);
    assert forall|child: usize| #[trigger] children_of_kind(rows, node, kind).contains(child) <==> right_inside(
        rows,
        node,
        child as int,
    ) && rows[child as int].named && rows[child as int].kind == kind by {
        crate::sequences::lemma_filter_members(all, keep, child);
    }
}

} // verus!

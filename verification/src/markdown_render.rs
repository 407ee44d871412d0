//! Rendering the syntax of a markdown source.

use vstd::prelude::*;
use vstd::string::*;
use crate::markdown::after_text;
use crate::markdown::code_span_text;
use crate::markdown::dedent_code;
use crate::markdown::dedented;
use crate::markdown::fence_of;
use crate::markdown::lemma_pieces_push;
use crate::markdown::normalized_span;
use crate::markdown::opening_fence;
use crate::markdown::prepend_text;
use crate::markdown::push_text;
use crate::markdown::span_inside;
use crate::markdown::strip_leaked_closing_fence;
use crate::markdown::text_node;
use crate::markdown::with_text;
use crate::markdown::without_closing_fence;
use crate::markdown_model::piece;
use crate::markdown_model::piece_lists;
use crate::markdown_model::pieces;
use crate::markdown_model::MarkdownNode;
use crate::markdown_model::MarkdownView;
use crate::markdown_syntax::row_views;
use crate::markdown_syntax::rows_fit;
use crate::markdown_syntax::syntax_fits;
use crate::markdown_syntax::RowView;
use crate::markdown_syntax::SyntaxRow;
use crate::markdown_syntax::SyntaxTree;
use crate::markdown_syntax::SyntaxView;
use crate::markdown_text::cut;
use crate::markdown_text::slice;
use crate::markdown_text::strip_brackets;
use crate::markdown_text::trim;
use crate::markdown_text::trim_end;
use crate::markdown_text::trimmed;
use crate::markdown_text::trimmed_end;
use crate::markdown_text::unbracketed;
use crate::numbers::parse_number;
use crate::numbers::parsed_number;
use crate::text::characters;
use crate::text::text_equal;
use crate::text::text_of;

verus! {

/// The text that HTML character references stand for in a text.
pub uninterp spec fn decoded_entities(text: Seq<char>) -> Seq<char>;

/// Calls `html_escape::decode_html_entities`. Claims that the result depends on the text
/// alone.
#[verifier::external_body]
fn decode_entities(text: &str) -> (decoded: String)
    ensures
        decoded@ == decoded_entities(text@),
{
    html_escape::decode_html_entities(text).into_owned()
}

/// The first place, from `next` on, that lies no deeper than a node.
pub open spec fn end_from(rows: Seq<RowView>, node: int, next: int) -> int
    decreases rows.len() - next,
{
    if next >= rows.len() || rows[next].depth <= rows[node].depth {
        next
    } else {
        end_from(rows, node, next + 1)
    }
}

/// The place behind a node and its descendants.
pub open spec fn subtree_end(rows: Seq<RowView>, node: int) -> int {
    end_from(rows, node, node + 1)
}

/// The nodes that follow one another from `next` on, up to a limit.
pub open spec fn siblings(rows: Seq<RowView>, next: int, limit: int) -> Seq<usize>
    decreases rows.len() - next,
{
    if next >= limit || !(next < subtree_end(rows, next)
        <= rows.len()) {
        Seq::empty()
    } else {
        seq![next as usize] + siblings(rows, subtree_end(rows, next), limit)
    }
}

/// The children of a node that the grammar names.
pub open spec fn named_children(rows: Seq<RowView>, node: int) -> Seq<usize> {
    siblings(rows, node + 1, subtree_end(rows, node)).filter(|child: usize| rows[child as int].named)
}

/// The named children of a node that have a kind.
pub open spec fn children_of_kind(rows: Seq<RowView>, node: int, kind: Seq<char>) -> Seq<usize> {
    named_children(rows, node).filter(|child: usize| rows[child as int].kind == kind)
}

/// The end of a subtree lies behind its node.
proof fn lemma_subtree_end(rows: Seq<RowView>, node: int, next: int)
    requires
        next <= rows.len(),
    ensures
        next <= end_from(rows, node, next) <= rows.len(),
    decreases rows.len() - next,
{
    if !(next >= rows.len() || rows[next].depth <= rows[node].depth) {
        lemma_subtree_end(rows, node, next + 1);
    }
}

/// Siblings lie between their bounds.
pub(crate) proof fn lemma_siblings_between(rows: Seq<RowView>, next: int, limit: int)
    requires
        0 <= next,
        rows.len() <= usize::MAX,
    ensures
        forall|i: int|
            0 <= i < siblings(rows, next, limit).len() ==> next <= #[trigger] siblings(
                rows,
                next,
                limit,
            )[i] < limit && siblings(rows, next, limit)[i] < rows.len(),
    decreases rows.len() - next,
{
    if next < limit && next < subtree_end(rows, next) <= rows.len() {
        let rest = siblings(rows, subtree_end(rows, next), limit);
        lemma_siblings_between(rows, subtree_end(rows, next), limit);
        assert forall|i: int| 0 <= i < siblings(rows, next, limit).len() implies next
            <= #[trigger] siblings(rows, next, limit)[i] < limit && siblings(rows, next, limit)[i]
            < rows.len() by {
            if i > 0 {
                assert(siblings(rows, next, limit)[i] == rest[i - 1]);
            }
        }
    }
}

/// Children lie behind their node.
pub(crate) proof fn lemma_children_behind(rows: Seq<RowView>, node: int)
    requires
        0 <= node < rows.len() <= usize::MAX,
    ensures
        forall|i: int|
            0 <= i < named_children(rows, node).len() ==> node < #[trigger] named_children(
                rows,
                node,
            )[i] < rows.len(),
        forall|kind: Seq<char>, i: int|
            0 <= i < children_of_kind(rows, node, kind).len() ==> node < #[trigger] children_of_kind(
                rows,
                node,
                kind,
            )[i] < rows.len(),
{
    let all = siblings(rows, node + 1, subtree_end(rows, node));
    let keep = |child: usize| rows[child as int].named;
    lemma_siblings_between(rows, node + 1, subtree_end(rows, node));
    assert forall|i: int| 0 <= i < named_children(rows, node).len() implies node
        < #[trigger] named_children(rows, node)[i] < rows.len() by {
        let child = named_children(rows, node)[i];
        assert(named_children(rows, node).contains(child));
        crate::sequences::lemma_filter_members(all, keep, child);
        assert(all[all.index_of(child)] == child);
    }
    assert forall|kind: Seq<char>, i: int|
        0 <= i < children_of_kind(rows, node, kind).len() implies node < #[trigger] children_of_kind(
        rows,
        node,
        kind,
    )[i] < rows.len() by {
        let child = children_of_kind(rows, node, kind)[i];
        assert(children_of_kind(rows, node, kind).contains(child));
        crate::sequences::lemma_filter_members(
            named_children(rows, node),
            |child: usize| rows[child as int].kind == kind,
            child,
        );
        let n = named_children(rows, node).index_of(child);
        assert(named_children(rows, node)[n] == child);
    }
}

/// Finds the place behind a node and its descendants.
fn find_end(rows: &Vec<SyntaxRow>, node: usize) -> (end: usize)
    requires
        node < rows@.len(),
    ensures
        end == subtree_end(row_views(rows@), node as int),
        node < end <= rows@.len(),
{
    let ghost all = row_views(rows@);
    let depth: usize = rows[node].depth;
    let count: usize = rows.len();
    let mut next: usize = node + 1;
    while next < count && rows[next].depth > depth
        invariant
            all == row_views(rows@),
            count == rows@.len(),
            node < next <= rows@.len(),
            node < rows@.len(),
            depth == all[node as int].depth,
            end_from(all, node as int, next as int) == subtree_end(all, node as int),
        decreases rows@.len() - next,
    {
        assert(all[next as int].depth == rows@[next as int].depth);
        next = next + 1;
    }
    proof {
        if next < rows@.len() {
            assert(all[next as int].depth == rows@[next as int].depth);
        }
    }
    next
}

/// Lists the named children of a node.
fn list_named_children(rows: &Vec<SyntaxRow>, node: usize) -> (children: Vec<usize>)
    requires
        node < rows@.len(),
    ensures
        children@ == named_children(row_views(rows@), node as int),
        forall|i: int| 0 <= i < children@.len() ==> node < #[trigger] children@[i] < rows@.len(),
{
    let ghost all = row_views(rows@);
    let ghost keep = |child: usize| all[child as int].named;
    let mut children: Vec<usize> = Vec::new();
    let limit: usize = find_end(rows, node);
    let count: usize = rows.len();
    let mut next: usize = node + 1;
    proof {
        assert(children@ + siblings(all, next as int, limit as int).filter(keep) =~= siblings(
            all,
            next as int,
            limit as int,
        ).filter(keep));
    }
    while next < limit
        invariant
            all == row_views(rows@),
            keep == (|child: usize| all[child as int].named),
            node < next,
            limit <= rows@.len(),
            count == rows@.len(),
            limit == subtree_end(all, node as int),
            children@ + siblings(all, next as int, limit as int).filter(keep) == named_children(
                all,
                node as int,
            ),
        decreases rows@.len() - next,
    {
        let after: usize = find_end(rows, next);
        let ghost before = children@;
        let ghost rest = siblings(all, after as int, limit as int);
        proof {
            lemma_filter_front(next, rest, keep);
            assert(siblings(all, next as int, limit as int) == seq![next] + rest);
        }
        if rows[next].named {
            children.push(next);
            assert(children@ + rest.filter(keep) =~= before + (seq![next] + rest.filter(keep)));
        } else {
            assert(!keep(next));
        }
        next = after;
    }
    proof {
        reveal(Seq::filter);
        assert(siblings(all, next as int, limit as int) =~= Seq::<usize>::empty());
        assert(children@ + siblings(all, next as int, limit as int).filter(keep) =~= children@);
        lemma_children_behind(all, node as int);
    }
    children
}

/// Filtering a sequence filters its first item and the rest.
pub(crate) proof fn lemma_filter_front(first: usize, rest: Seq<usize>, keep: spec_fn(usize) -> bool)
    ensures
        (seq![first] + rest).filter(keep) == (if keep(first) {
            seq![first] + rest.filter(keep)
        } else {
            rest.filter(keep)
        }),
    decreases rest.len(),
{
    reveal(Seq::filter);
    let all = seq![first] + rest;
    if rest.len() == 0 {
        assert(all.drop_last() =~= Seq::<usize>::empty());
        assert(rest =~= Seq::<usize>::empty());
        assert(all.drop_last().filter(keep) =~= Seq::<usize>::empty());
        assert(all.last() == first);
        assert(all.filter(keep) =~= (if keep(first) {
            seq![first] + rest.filter(keep)
        } else {
            rest.filter(keep)
        }));
    } else {
        assert(all.drop_last() =~= seq![first] + rest.drop_last());
        assert(all.last() == rest.last());
        lemma_filter_front(first, rest.drop_last(), keep);
        assert(all.filter(keep) =~= (if keep(first) {
            seq![first] + rest.filter(keep)
        } else {
            rest.filter(keep)
        }));
    }
}

fn has_kind(row: &SyntaxRow, kind: &str) -> (found: bool)
    ensures
        found == (row@.kind == kind@),
{
    text_equal(row.kind.as_str(), kind)
}

/// Lists the named children of a node that have a kind.
fn list_children_of_kind(rows: &Vec<SyntaxRow>, node: usize, kind: &str) -> (children: Vec<usize>)
    requires
        node < rows@.len(),
    ensures
        children@ == children_of_kind(row_views(rows@), node as int, kind@),
        forall|i: int| 0 <= i < children@.len() ==> node < #[trigger] children@[i] < rows@.len(),
{
    let ghost all = row_views(rows@);
    let ghost keep = |child: usize| all[child as int].kind == kind@;
    let count: usize = rows.len();
    let named = list_named_children(rows, node);
    let mut children: Vec<usize> = Vec::new();
    let mut i: usize = 0;
    proof {
        reveal(Seq::filter);
        assert(named@.take(0) =~= Seq::<usize>::empty());
        assert(children@ =~= named@.take(0).filter(keep));
    }
    while i < named.len()
        invariant
            all == row_views(rows@),
            keep == (|child: usize| all[child as int].kind == kind@),
            forall|k: int| 0 <= k < named@.len() ==> node < #[trigger] named@[k] < rows@.len(),
            0 <= i <= named@.len(),
            children@ == named@.take(i as int).filter(keep),
        decreases named@.len() - i,
    {
        let child: usize = named[i];
        proof {
            assert(named@.take(i + 1) =~= named@.take(i as int).push(child));
            crate::sequences::lemma_filter_push(named@.take(i as int), keep, child);
            assert(all[child as int] == rows@[child as int]@);
        }
        if has_kind(&rows[child], kind) {
            children.push(child);
        }
        i += 1;
    }
    proof {
        assert(named@.take(i as int) =~= named@);
        lemma_children_behind(all, node as int);
    }
    children
}

/// The piece of the source that a node marks.
pub open spec fn row_text(source: Seq<char>, row: RowView) -> Seq<char> {
    slice(source, row.start as int, row.end as int)
}

fn node_text<'a>(row: &SyntaxRow, source: &'a str) -> (text: &'a str)
    requires
        crate::markdown_syntax::row_fits(source@, row@),
    ensures
        text@ == row_text(source@, row@),
        vstd::utf8::encode_utf8(text@).len() == row.end - row.start,
{
    cut(source, row.start, row.end)
}

// Inline content.

/// The pieces that the content of an inline node renders to.
pub open spec fn inline_content(source: Seq<char>, rows: Seq<RowView>, node: int) -> Seq<MarkdownView>
    decreases rows.len() - node, 0int,
{
    if 0 <= node < rows.len() {
        let (rendered, offset) = inline_run(
            source,
            rows,
            node + 1,
            subtree_end(rows, node),
            rows[node].start as int,
            Seq::empty(),
        );
        if offset < rows[node].end {
            with_text(rendered, slice(source, offset, rows[node].end as int))
        } else {
            rendered
        }
    } else {
        Seq::empty()
    }
}

/// The pieces that a run of inline nodes renders to, with the text between them; and where the
/// last of them ends.
pub open spec fn inline_run(
    source: Seq<char>,
    rows: Seq<RowView>,
    next: int,
    limit: int,
    offset: int,
    rendered: Seq<MarkdownView>,
) -> (Seq<MarkdownView>, int)
    decreases rows.len() - next, 2int,
{
    if next < 0 || next >= limit || !(next < subtree_end(rows, next)
        <= rows.len()) {
        (rendered, offset)
    } else {
        let before = if offset < rows[next].start {
            with_text(rendered, slice(source, offset, rows[next].start as int))
        } else {
            rendered
        };
        inline_run(
            source,
            rows,
            subtree_end(rows, next),
            limit,
            rows[next].end as int,
            inline_piece(source, rows, next, before),
        )
    }
}

/// A backslash escape without its backslash.
pub open spec fn unescaped(text: Seq<char>) -> Seq<char> {
    if text.len() > 0 && text[0] == '\\' {
        text.drop_first()
    } else {
        Seq::empty()
    }
}

/// A link to an address that is written out.
pub open spec fn autolink(text: Seq<char>, email: bool) -> MarkdownView {
    let address = unbracketed(text);
    MarkdownView::Link {
        destination: if email {
            "mailto:"@ + address
        } else {
            address
        },
        children: seq![MarkdownView::Text { text: address }],
    }
}

/// The pieces that an inline node adds to those rendered before it.
pub open spec fn inline_piece(
    source: Seq<char>,
    rows: Seq<RowView>,
    node: int,
    rendered: Seq<MarkdownView>,
) -> Seq<MarkdownView>
    decreases rows.len() - node, 1int,
{
    let kind = rows[node].kind;
    let text = row_text(source, rows[node]);
    if kind == "emphasis"@ {
        rendered.push(MarkdownView::Emphasis { children: inline_content(source, rows, node) })
    } else if kind == "strong_emphasis"@ {
        rendered.push(MarkdownView::Strong { children: inline_content(source, rows, node) })
    } else if kind == "strikethrough"@ {
        rendered.push(MarkdownView::Strikethrough { children: inline_content(source, rows, node) })
    } else if kind == "code_span"@ {
        rendered.push(MarkdownView::InlineCode { code: normalized_span(span_inside(text)) })
    } else if kind == "inline_link"@ {
        let texts = children_of_kind(rows, node, "link_text"@);
        let destinations = children_of_kind(rows, node, "link_destination"@);
        rendered.push(
            MarkdownView::Link {
                destination: if destinations.len() > 0 {
                    decoded_entities(row_text(source, rows[destinations.last() as int]))
                } else {
                    Seq::empty()
                },
                children: if texts.len() > 0 && node < texts.last() < rows.len() {
                    inline_content(source, rows, texts.last() as int)
                } else {
                    Seq::empty()
                },
            },
        )
    } else if kind == "image"@ {
        let descriptions = children_of_kind(rows, node, "image_description"@);
        if descriptions.len() > 0 && node < descriptions[0] < rows.len() {
            rendered + inline_content(source, rows, descriptions[0] as int)
        } else {
            rendered
        }
    } else if kind == "uri_autolink"@ {
        rendered.push(autolink(text, false))
    } else if kind == "email_autolink"@ {
        rendered.push(autolink(text, true))
    } else if kind == "hard_line_break"@ {
        rendered.push(MarkdownView::LineBreak)
    } else if kind == "backslash_escape"@ {
        with_text(rendered, unescaped(text))
    } else if kind == "entity_reference"@ || kind == "numeric_character_reference"@ {
        with_text(rendered, decoded_entities(text))
    } else if kind == "emphasis_delimiter"@ || kind == "code_span_delimiter"@ {
        rendered
    } else if rows[node].named {
        let children = inline_content(source, rows, node);
        if children.len() == 0 {
            with_text(rendered, text)
        } else {
            rendered + children
        }
    } else {
        with_text(rendered, text)
    }
}

/// Renders the content of an inline node.
fn inline_children(source: &str, rows: &Vec<SyntaxRow>, node: usize) -> (children: Vec<MarkdownNode>)
    requires
        rows_fit(source@, row_views(rows@)),
        node < rows@.len(),
    ensures
        pieces(children@) == inline_content(source@, row_views(rows@), node as int),
    decreases rows@.len() - node, 0int,
{
    let ghost all = row_views(rows@);
    let mut children: Vec<MarkdownNode> = Vec::new();
    let limit: usize = find_end(rows, node);
    let mut next: usize = node + 1;
    let mut offset: usize = rows[node].start;
    assert(all[node as int] == rows@[node as int]@);
    assert(pieces(children@) =~= Seq::<MarkdownView>::empty());
    while next < limit
        invariant
            all == row_views(rows@),
            rows_fit(source@, all),
            node < next,
            node < rows@.len(),
            limit <= rows@.len(),
            limit == subtree_end(all, node as int),
            crate::markdown_text::is_slice(source@, offset as int, offset as int),
            inline_run(
                source@,
                all,
                next as int,
                limit as int,
                offset as int,
                pieces(children@),
            ) == inline_run(
                source@,
                all,
                node + 1,
                limit as int,
                all[node as int].start as int,
                Seq::empty(),
            ),
        decreases rows@.len() - next,
    {
        assert(all[next as int] == rows@[next as int]@);
        assert(crate::markdown_syntax::row_fits(source@, all[next as int]));
        let after: usize = find_end(rows, next);
        let start: usize = rows[next].start;
        if offset < start {
            push_text(&mut children, cut(source, offset, start));
        }
        render_inline(source, rows, next, &mut children);
        offset = rows[next].end;
        next = after;
    }
    assert(crate::markdown_syntax::row_fits(source@, all[node as int]));
    let end: usize = rows[node].end;
    if offset < end {
        push_text(&mut children, cut(source, offset, end));
    }
    children
}

/// Appends pieces to others.
fn append_pieces(rendered: &mut Vec<MarkdownNode>, added: Vec<MarkdownNode>)
    ensures
        pieces(final(rendered)@) == pieces(old(rendered)@) + pieces(added@),
{
    let ghost before = rendered@;
    let mut added = added;
    let ghost all = added@;
    rendered.append(&mut added);
    assert(rendered@ =~= before + all);
    assert(pieces(rendered@) =~= pieces(before) + pieces(all));
}

/// Renders an inline node behind others.
fn render_inline(source: &str, rows: &Vec<SyntaxRow>, node: usize, rendered: &mut Vec<MarkdownNode>)
    requires
        rows_fit(source@, row_views(rows@)),
        node < rows@.len(),
    ensures
        pieces(final(rendered)@) == inline_piece(
            source@,
            row_views(rows@),
            node as int,
            pieces(old(rendered)@),
        ),
    decreases rows@.len() - node, 2int,
{
    let ghost all = row_views(rows@);
    let ghost before = rendered@;
    let row = &rows[node];
    assert(all[node as int] == row@);
    assert(crate::markdown_syntax::row_fits(source@, all[node as int]));
    if has_kind(row, "emphasis") {
        let children = inline_children(source, rows, node);
        let added = MarkdownNode::Emphasis { children };
        rendered.push(added);
        proof {
            lemma_pieces_push(before, added);
        }
    } else if has_kind(row, "strong_emphasis") {
        let children = inline_children(source, rows, node);
        let added = MarkdownNode::Strong { children };
        rendered.push(added);
        proof {
            lemma_pieces_push(before, added);
        }
    } else if has_kind(row, "strikethrough") {
        let children = inline_children(source, rows, node);
        let added = MarkdownNode::Strikethrough { children };
        rendered.push(added);
        proof {
            lemma_pieces_push(before, added);
        }
    } else if has_kind(row, "code_span") {
        let added = MarkdownNode::InlineCode { code: code_span_text(node_text(row, source)) };
        rendered.push(added);
        proof {
            lemma_pieces_push(before, added);
        }
    } else if has_kind(row, "inline_link") {
        let added = render_link(source, rows, node);
        rendered.push(added);
        proof {
            lemma_pieces_push(before, added);
        }
    } else if has_kind(row, "image") {
        let descriptions = list_children_of_kind(rows, node, "image_description");
        if descriptions.len() > 0 {
            assert(node < descriptions@[0]);
            let children = inline_children(source, rows, descriptions[0]);
            append_pieces(rendered, children);
        }
    } else {
        render_inline_atom(source, rows, node, rendered);
    }
}

/// Renders a link.
fn render_link(source: &str, rows: &Vec<SyntaxRow>, node: usize) -> (link: MarkdownNode)
    requires
        rows_fit(source@, row_views(rows@)),
        node < rows@.len(),
    ensures
        ({
            let all = row_views(rows@);
            let texts = children_of_kind(all, node as int, "link_text"@);
            let destinations = children_of_kind(all, node as int, "link_destination"@);
            link@ == (MarkdownView::Link {
                destination: if destinations.len() > 0 {
                    decoded_entities(row_text(source@, all[destinations.last() as int]))
                } else {
                    Seq::empty()
                },
                children: if texts.len() > 0 && node < texts.last() < all.len() {
                    inline_content(source@, all, texts.last() as int)
                } else {
                    Seq::empty()
                },
            })
        }),
    decreases rows@.len() - node, 0int,
{
    let ghost all = row_views(rows@);
    let texts = list_children_of_kind(rows, node, "link_text");
    let destinations = list_children_of_kind(rows, node, "link_destination");
    let destination = if destinations.len() > 0 {
        let place: usize = destinations[destinations.len() - 1];
        assert(all[place as int] == rows@[place as int]@);
        assert(crate::markdown_syntax::row_fits(source@, all[place as int]));
        decode_entities(node_text(&rows[place], source))
    } else {
        String::new()
    };
    let children = if texts.len() > 0 {
        let place: usize = texts[texts.len() - 1];
        assert(node < place);
        inline_children(source, rows, place)
    } else {
        Vec::new()
    };
    assert(texts@.len() == 0 ==> pieces(children@) =~= Seq::<MarkdownView>::empty());
    MarkdownNode::Link { destination, children }
}

/// Renders a link to an address that is written out.
fn render_autolink(text: &str, email: bool) -> (link: MarkdownNode)
    ensures
        link@ == autolink(text@, email),
{
    let address = strip_brackets(text);
    let destination = if email {
        "mailto:".to_owned().concat(address.as_str())
    } else {
        address.clone()
    };
    let mut children: Vec<MarkdownNode> = Vec::new();
    children.push(text_node(address.as_str()));
    assert(pieces(children@) =~= seq![MarkdownView::Text { text: address@ }]);
    MarkdownNode::Link { destination, children }
}

/// Removes the backslash of an escape.
fn strip_backslash(text: &str) -> (rest: String)
    ensures
        rest@ == unescaped(text@),
{
    let list = characters(text);
    if list.len() > 0 && list[0] == '\\' {
        assert(list@.subrange(1, list@.len() as int) =~= text@.drop_first());
        text_of(&list, 1, list.len())
    } else {
        String::new()
    }
}

/// Renders an inline node of the remaining kinds behind others.
fn render_inline_atom(
    source: &str,
    rows: &Vec<SyntaxRow>,
    node: usize,
    rendered: &mut Vec<MarkdownNode>,
)
    requires
        rows_fit(source@, row_views(rows@)),
        node < rows@.len(),
        ({
            let kind = row_views(rows@)[node as int].kind;
            kind != "emphasis"@ && kind != "strong_emphasis"@ && kind != "strikethrough"@ && kind
                != "code_span"@ && kind != "inline_link"@ && kind != "image"@
        }),
    ensures
        pieces(final(rendered)@) == inline_piece(
            source@,
            row_views(rows@),
            node as int,
            pieces(old(rendered)@),
        ),
    decreases rows@.len() - node, 1int,
{
    let ghost all = row_views(rows@);
    let ghost before = rendered@;
    let row = &rows[node];
    assert(all[node as int] == row@);
    assert(crate::markdown_syntax::row_fits(source@, all[node as int]));
    if has_kind(row, "uri_autolink") {
        let added = render_autolink(node_text(row, source), false);
        rendered.push(added);
        proof {
            lemma_pieces_push(before, added);
        }
    } else if has_kind(row, "email_autolink") {
        let added = render_autolink(node_text(row, source), true);
        rendered.push(added);
        proof {
            lemma_pieces_push(before, added);
        }
    } else if has_kind(row, "hard_line_break") {
        rendered.push(MarkdownNode::LineBreak);
        proof {
            lemma_pieces_push(before, MarkdownNode::LineBreak);
        }
    } else if has_kind(row, "backslash_escape") {
        let text = strip_backslash(node_text(row, source));
        push_text(rendered, text.as_str());
    } else if has_kind(row, "entity_reference") || has_kind(row, "numeric_character_reference") {
        let decoded = decode_entities(node_text(row, source));
        push_text(rendered, decoded.as_str());
    } else if has_kind(row, "emphasis_delimiter") || has_kind(row, "code_span_delimiter") {
    } else if row.named {
        let children = inline_children(source, rows, node);
        if children.len() == 0 {
            push_text(rendered, node_text(row, source));
        } else {
            append_pieces(rendered, children);
        }
    } else {
        push_text(rendered, node_text(row, source));
    }
}

// Blocks.

/// The kinds of blocks that render to nothing.
pub open spec fn is_skipped(kind: Seq<char>) -> bool {
    ||| kind == "link_reference_definition"@
    ||| kind == "minus_metadata"@
    ||| kind == "plus_metadata"@
    ||| kind == "block_quote_marker"@
    ||| kind == "block_continuation"@
    ||| kind == "list_marker_dot"@
    ||| kind == "list_marker_minus"@
    ||| kind == "list_marker_parenthesis"@
    ||| kind == "list_marker_plus"@
    ||| kind == "list_marker_star"@
    ||| kind == "task_list_marker_checked"@
    ||| kind == "task_list_marker_unchecked"@
}

fn skipped(row: &SyntaxRow) -> (found: bool)
    ensures
        found == is_skipped(row@.kind),
{
    has_kind(row, "link_reference_definition") || has_kind(row, "minus_metadata") || has_kind(
        row,
        "plus_metadata",
    ) || has_kind(row, "block_quote_marker") || has_kind(row, "block_continuation") || has_kind(
        row,
        "list_marker_dot",
    ) || has_kind(row, "list_marker_minus") || has_kind(row, "list_marker_parenthesis") || has_kind(
        row,
        "list_marker_plus",
    ) || has_kind(row, "list_marker_star") || has_kind(row, "task_list_marker_checked") || has_kind(
        row,
        "task_list_marker_unchecked",
    )
}

/// The inline content of a block; its plain text where it has no inline tree.
pub open spec fn block_inline_content(source: Seq<char>, tree: SyntaxView, node: int) -> Seq<MarkdownView> {
    let inlines = children_of_kind(tree.blocks, node, "inline"@);
    if inlines.len() > 0 && tree.inlines[inlines[0] as int] is Some {
        inline_content(source, tree.inlines[inlines[0] as int]->0, 0)
    } else {
        seq![MarkdownView::Text { text: trimmed_end(row_text(source, tree.blocks[node])) }]
    }
}

/// The text of a kind between a prefix and a suffix.
pub open spec fn inner_text(text: Seq<char>, prefix: Seq<char>, suffix: Seq<char>) -> Option<Seq<char>> {
    if prefix.len() + suffix.len() <= text.len() && text.take(prefix.len() as int) == prefix && text.skip(
        text.len() - suffix.len(),
    ) == suffix {
        Some(text.subrange(prefix.len() as int, text.len() - suffix.len()))
    } else {
        None
    }
}

/// The level of a heading with number signs: the number in the kind of its marker.
pub open spec fn atx_level(rows: Seq<RowView>, node: int) -> u8 {
    let named = named_children(rows, node);
    if named.len() == 0 {
        1
    } else {
        match inner_text(rows[named[0] as int].kind, "atx_h"@, "_marker"@) {
            None => 1,
            Some(level) => match parsed_number(level, 255) {
                None => 1,
                Some(number) => number as u8,
            },
        }
    }
}

/// Whether a kind is that of an underline.
pub open spec fn is_underline(kind: Seq<char>) -> bool {
    kind == "setext_h1_underline"@ || kind == "setext_h2_underline"@
}

/// The level of an underlined heading.
pub open spec fn setext_level(rows: Seq<RowView>, node: int) -> u8 {
    let underlines = named_children(rows, node).filter(
        |child: usize| is_underline(rows[child as int].kind),
    );
    if underlines.len() > 0 && rows[underlines[0] as int].kind != "setext_h1_underline"@ {
        2
    } else {
        1
    }
}

/// The language of a code block: the first word of its info string, where it has one.
pub open spec fn code_language(source: Seq<char>, rows: Seq<RowView>, node: int) -> Option<Seq<char>> {
    let infos = children_of_kind(rows, node, "info_string"@);
    if infos.len() == 0 {
        None
    } else {
        let words = named_children(rows, infos.last() as int);
        if words.len() == 0 {
            None
        } else {
            let language = trimmed(row_text(source, rows[words[0] as int]));
            if language.len() == 0 {
                None
            } else {
                Some(language)
            }
        }
    }
}

/// The code of a fenced block as the parser marks it.
pub open spec fn fenced_content(source: Seq<char>, rows: Seq<RowView>, node: int) -> Seq<char> {
    let contents = children_of_kind(rows, node, "code_fence_content"@);
    if contents.len() == 0 {
        Seq::empty()
    } else {
        row_text(source, rows[contents.last() as int])
    }
}

/// A fenced code block.
pub open spec fn fenced_code(source: Seq<char>, rows: Seq<RowView>, node: int) -> MarkdownView {
    let content = fenced_content(source, rows, node);
    MarkdownView::CodeBlock {
        language: code_language(source, rows, node),
        code: match fence_of(row_text(source, rows[node]), rows[node].column as nat) {
            None => content,
            Some((marker, length, indentation)) => without_closing_fence(
                content,
                marker,
                length,
                indentation,
            ),
        },
    }
}

/// Whether a kind is that of a task marker.
pub open spec fn is_task_marker(kind: Seq<char>) -> bool {
    kind == "task_list_marker_checked"@ || kind == "task_list_marker_unchecked"@
}

/// The blocks of a list item with the text of its task marker before them.
pub open spec fn with_task_marker(
    source: Seq<char>,
    rows: Seq<RowView>,
    node: int,
    blocks: Seq<MarkdownView>,
) -> Seq<MarkdownView> {
    let markers = named_children(rows, node).filter(
        |child: usize| is_task_marker(rows[child as int].kind),
    );
    if markers.len() > 0 && blocks.len() > 0 && blocks[0] is Paragraph {
        blocks.update(
            0,
            MarkdownView::Paragraph {
                children: after_text(
                    blocks[0]->Paragraph_children,
                    row_text(source, rows[markers[0] as int]) + " "@,
                ),
            },
        )
    } else {
        blocks
    }
}

/// The marker of a list: the first named node of its first.
pub open spec fn list_marker(rows: Seq<RowView>, node: int) -> Option<usize> {
    let items = named_children(rows, node);
    if items.len() == 0 {
        None
    } else {
        let inner = named_children(rows, items[0] as int);
        if inner.len() == 0 {
            None
        } else {
            Some(inner[0])
        }
    }
}

/// Whether a kind is that of a numbered marker.
pub open spec fn is_numbered(kind: Seq<char>) -> bool {
    kind == "list_marker_dot"@ || kind == "list_marker_parenthesis"@
}

/// Periods and closing parentheses.
pub open spec fn marker_end() -> spec_fn(char) -> bool {
    |character: char| character == '.' || character == ')'
}

/// The number of a marker.
pub open spec fn marker_number(text: Seq<char>) -> u64 {
    match parsed_number(
        crate::markdown_text::without_trailing(trimmed(text), marker_end()),
        u64::MAX as nat,
    ) {
        None => 1,
        Some(number) => number as u64,
    }
}

/// A list with the given items.
pub open spec fn list_piece(
    source: Seq<char>,
    rows: Seq<RowView>,
    node: int,
    items: Seq<Seq<MarkdownView>>,
) -> MarkdownView {
    match list_marker(rows, node) {
        None => MarkdownView::UnorderedList { items },
        Some(marker) => if is_numbered(rows[marker as int].kind) {
            MarkdownView::OrderedList {
                start: marker_number(row_text(source, rows[marker as int])),
                items,
            }
        } else {
            MarkdownView::UnorderedList { items }
        },
    }
}

/// The pieces that a run of blocks renders to.
pub open spec fn block_run(source: Seq<char>, tree: SyntaxView, next: int, limit: int) -> Seq<MarkdownView>
    decreases tree.blocks.len() - next, 2int,
{
    if next < 0 || next >= limit || !(next < subtree_end(tree.blocks, next) <= tree.blocks.len()) {
        Seq::empty()
    } else {
        (if tree.blocks[next].named {
            block_pieces(source, tree, next)
        } else {
            Seq::empty()
        }) + block_run(source, tree, subtree_end(tree.blocks, next), limit)
    }
}

/// The pieces that the children of a block render to.
pub open spec fn block_content(source: Seq<char>, tree: SyntaxView, node: int) -> Seq<MarkdownView>
    decreases tree.blocks.len() - node, 0int,
{
    if 0 <= node < tree.blocks.len() {
        block_run(source, tree, node + 1, subtree_end(tree.blocks, node))
    } else {
        Seq::empty()
    }
}

/// The items that a run of blocks holds.
pub open spec fn item_run(source: Seq<char>, tree: SyntaxView, next: int, limit: int) -> Seq<
    Seq<MarkdownView>,
>
    decreases tree.blocks.len() - next, 2int,
{
    if next < 0 || next >= limit || !(next < subtree_end(tree.blocks, next) <= tree.blocks.len()) {
        Seq::empty()
    } else {
        (if tree.blocks[next].named && tree.blocks[next].kind == "list_item"@ {
            seq![
                with_task_marker(
                    source,
                    tree.blocks,
                    next,
                    block_content(source, tree, next),
                ),
            ]
        } else {
            Seq::empty()
        }) + item_run(source, tree, subtree_end(tree.blocks, next), limit)
    }
}

/// The pieces that a block renders to.
pub open spec fn block_pieces(source: Seq<char>, tree: SyntaxView, node: int) -> Seq<MarkdownView>
    decreases tree.blocks.len() - node, 1int,
{
    let row = tree.blocks[node];
    let kind = row.kind;
    let text = row_text(source, row);
    if kind == "document"@ || kind == "section"@ {
        block_content(source, tree, node)
    } else if kind == "paragraph"@ {
        seq![MarkdownView::Paragraph { children: block_inline_content(source, tree, node) }]
    } else if kind == "atx_heading"@ {
        seq![
            MarkdownView::Heading {
                level: atx_level(tree.blocks, node),
                children: block_inline_content(source, tree, node),
            },
        ]
    } else if kind == "setext_heading"@ {
        seq![
            MarkdownView::Heading {
                level: setext_level(tree.blocks, node),
                children: block_inline_content(source, tree, node),
            },
        ]
    } else if kind == "list"@ {
        if 0 <= node < tree.blocks.len() {
            seq![
                list_piece(
                    source,
                    tree.blocks,
                    node,
                    item_run(source, tree, node + 1, subtree_end(tree.blocks, node)),
                ),
            ]
        } else {
            Seq::empty()
        }
    } else if kind == "block_quote"@ {
        seq![MarkdownView::BlockQuote { children: block_content(source, tree, node) }]
    } else if kind == "fenced_code_block"@ {
        seq![fenced_code(source, tree.blocks, node)]
    } else if kind == "indented_code_block"@ {
        seq![
            MarkdownView::CodeBlock { language: None, code: dedented(text, true, row.column as int) },
        ]
    } else if kind == "thematic_break"@ {
        seq![MarkdownView::ThematicBreak]
    } else if kind == "html_block"@ || kind == "pipe_table"@ {
        seq![MarkdownView::CodeBlock { language: None, code: text }]
    } else if is_skipped(kind) {
        Seq::empty()
    } else {
        let children = block_content(source, tree, node);
        if children.len() == 0 {
            seq![
                MarkdownView::Paragraph {
                    children: seq![MarkdownView::Text { text: trimmed_end(text) }],
                },
            ]
        } else {
            children
        }
    }
}

/// One piece as a list.
fn one(node: MarkdownNode) -> (list: Vec<MarkdownNode>)
    ensures
        pieces(list@) == seq![node@],
{
    let mut list: Vec<MarkdownNode> = Vec::new();
    list.push(node);
    assert(pieces(list@) =~= seq![node@]);
    list
}

/// Renders the inline content of a block.
fn block_inline(source: &str, tree: &SyntaxTree, node: usize) -> (children: Vec<MarkdownNode>)
    requires
        syntax_fits(source@, tree@),
        node < tree.blocks@.len(),
    ensures
        pieces(children@) == block_inline_content(source@, tree@, node as int),
{
    let inlines = list_children_of_kind(&tree.blocks, node, "inline");
    if inlines.len() > 0 {
        let place: usize = inlines[0];
        if let Some(rows) = &tree.inlines[place] {
            assert(tree@.inlines[place as int] == Some(row_views(rows@)));
            return inline_children(source, rows, 0);
        }
        assert(tree@.inlines[place as int] is None);
    }
    assert(tree@.blocks[node as int] == tree.blocks@[node as int]@);
    assert(crate::markdown_syntax::row_fits(source@, tree@.blocks[node as int]));
    let text = trim_end(node_text(&tree.blocks[node], source));
    one(text_node(text.as_str()))
}

/// Reads the text between a prefix and a suffix.
fn inner(text: &str, prefix: &str, suffix: &str) -> (found: Option<String>)
    ensures
        match found {
            Some(part) => inner_text(text@, prefix@, suffix@) == Some(part@),
            None => inner_text(text@, prefix@, suffix@) is None,
        },
{
    let list = characters(text);
    let front: usize = prefix.unicode_len();
    let back: usize = suffix.unicode_len();
    let count: usize = list.len();
    if front > count || back > count - front {
        return None;
    }
    let first = text_of(&list, 0, front);
    let last = text_of(&list, count - back, count);
    assert(first@ =~= text@.take(front as int));
    assert(last@ =~= text@.skip(count - back));
    if text_equal(first.as_str(), prefix) && text_equal(last.as_str(), suffix) {
        Some(text_of(&list, front, count - back))
    } else {
        None
    }
}

fn atx_heading_level(rows: &Vec<SyntaxRow>, node: usize) -> (level: u8)
    requires
        node < rows@.len(),
    ensures
        level == atx_level(row_views(rows@), node as int),
{
    let ghost all = row_views(rows@);
    let named = list_named_children(rows, node);
    if named.len() == 0 {
        return 1;
    }
    let marker: usize = named[0];
    assert(all[marker as int] == rows@[marker as int]@);
    match inner(rows[marker].kind.as_str(), "atx_h", "_marker") {
        None => 1,
        Some(level) => match parse_number(level.as_str(), 255) {
            None => 1,
            Some(number) => number as u8,
        },
    }
}

fn setext_heading_level(rows: &Vec<SyntaxRow>, node: usize) -> (level: u8)
    requires
        node < rows@.len(),
    ensures
        level == setext_level(row_views(rows@), node as int),
{
    let ghost all = row_views(rows@);
    let ghost keep = |child: usize| is_underline(all[child as int].kind);
    let named = list_named_children(rows, node);
    let mut i: usize = 0;
    proof {
        reveal(Seq::filter);
        assert(named@.take(0) =~= Seq::<usize>::empty());
        assert(named@.take(0).filter(keep) =~= Seq::<usize>::empty());
    }
    while i < named.len()
        invariant
            all == row_views(rows@),
            keep == (|child: usize| is_underline(all[child as int].kind)),
            named@ == named_children(all, node as int),
            forall|k: int| 0 <= k < named@.len() ==> node < #[trigger] named@[k] < rows@.len(),
            0 <= i <= named@.len(),
            named@.take(i as int).filter(keep) == Seq::<usize>::empty(),
        decreases named@.len() - i,
    {
        let child: usize = named[i];
        proof {
            assert(all[child as int] == rows@[child as int]@);
            lemma_first_kept(named@, keep, i as int);
        }
        if has_kind(&rows[child], "setext_h1_underline") {
            return 1;
        }
        if has_kind(&rows[child], "setext_h2_underline") {
            return 2;
        }
        i += 1;
    }
    assert(named@.take(i as int) =~= named@);
    1
}

/// The first item that passes is the first of the passing ones.
proof fn lemma_first_kept(items: Seq<usize>, keep: spec_fn(usize) -> bool, index: int)
    requires
        0 <= index < items.len(),
        items.take(index).filter(keep) == Seq::<usize>::empty(),
    ensures
        keep(items[index]) ==> items.filter(keep).len() > 0 && items.filter(keep)[0] == items[index],
        !keep(items[index]) ==> items.take(index + 1).filter(keep) == Seq::<usize>::empty(),
{
    assert(items.take(index + 1) =~= items.take(index).push(items[index]));
    crate::sequences::lemma_filter_push(items.take(index), keep, items[index]);
    if keep(items[index]) {
        assert(items.take(index + 1).filter(keep)[0] == items[index]);
        lemma_filter_prefix(items, keep, index + 1);
    }
}

/// The passing items of a prefix come first among the passing items.
proof fn lemma_filter_prefix(items: Seq<usize>, keep: spec_fn(usize) -> bool, count: int)
    requires
        0 <= count <= items.len(),
    ensures
        items.take(count).filter(keep).len() <= items.filter(keep).len(),
        forall|i: int|
            0 <= i < items.take(count).filter(keep).len() ==> items.take(count).filter(keep)[i]
                == #[trigger] items.filter(keep)[i],
    decreases items.len() - count,
{
    if count < items.len() {
        lemma_filter_prefix(items, keep, count + 1);
        assert(items.take(count + 1) =~= items.take(count).push(items[count]));
        crate::sequences::lemma_filter_push(items.take(count), keep, items[count]);
    } else {
        assert(items.take(count) =~= items);
    }
}

/// Finds the first named child of a node with one of two kinds.
fn first_of_kinds(rows: &Vec<SyntaxRow>, node: usize, left: &str, right: &str) -> (child: Option<usize>)
    requires
        node < rows@.len(),
    ensures
        ({
            let all = row_views(rows@);
            let found = named_children(all, node as int).filter(
                |child: usize|
                    all[child as int].kind == left@ || all[child as int].kind == right@,
            );
            match child {
                Some(place) => found.len() > 0 && found[0] == place && place < rows@.len(),
                None => found.len() == 0,
            }
        }),
{
    let ghost all = row_views(rows@);
    let ghost keep = |child: usize|
        all[child as int].kind == left@ || all[child as int].kind == right@;
    let named = list_named_children(rows, node);
    let mut i: usize = 0;
    proof {
        reveal(Seq::filter);
        assert(named@.take(0) =~= Seq::<usize>::empty());
        assert(named@.take(0).filter(keep) =~= Seq::<usize>::empty());
    }
    while i < named.len()
        invariant
            all == row_views(rows@),
            keep == (|child: usize|
                all[child as int].kind == left@ || all[child as int].kind == right@),
            named@ == named_children(all, node as int),
            forall|k: int| 0 <= k < named@.len() ==> node < #[trigger] named@[k] < rows@.len(),
            0 <= i <= named@.len(),
            named@.take(i as int).filter(keep) == Seq::<usize>::empty(),
        decreases named@.len() - i,
    {
        let child: usize = named[i];
        proof {
            assert(all[child as int] == rows@[child as int]@);
            lemma_first_kept(named@, keep, i as int);
        }
        if has_kind(&rows[child], left) || has_kind(&rows[child], right) {
            return Some(child);
        }
        i += 1;
    }
    assert(named@.take(i as int) =~= named@);
    None
}

/// Renders a fenced code block.
fn render_fenced_code(source: &str, rows: &Vec<SyntaxRow>, node: usize) -> (block: MarkdownNode)
    requires
        rows_fit(source@, row_views(rows@)),
        node < rows@.len(),
    ensures
        block@ == fenced_code(source@, row_views(rows@), node as int),
{
    let ghost all = row_views(rows@);
    assert(all[node as int] == rows@[node as int]@);
    assert(crate::markdown_syntax::row_fits(source@, all[node as int]));
    let text = node_text(&rows[node], source);
    proof {
        crate::markdown_text::lemma_fewer_characters(text@);
    }
    let fence = opening_fence(text, rows[node].column);
    let infos = list_children_of_kind(rows, node, "info_string");
    let mut language: Option<String> = None;
    if infos.len() > 0 {
        let info: usize = infos[infos.len() - 1];
        let words = list_named_children(rows, info);
        if words.len() > 0 {
            let word: usize = words[0];
            assert(all[word as int] == rows@[word as int]@);
            assert(crate::markdown_syntax::row_fits(source@, all[word as int]));
            let name = trim(node_text(&rows[word], source));
            if !name.as_str().is_empty() {
                language = Some(name);
            }
        }
    }
    let contents = list_children_of_kind(rows, node, "code_fence_content");
    let mut code = String::new();
    if contents.len() > 0 {
        let content: usize = contents[contents.len() - 1];
        assert(all[content as int] == rows@[content as int]@);
        assert(crate::markdown_syntax::row_fits(source@, all[content as int]));
        code = node_text(&rows[content], source).to_owned();
    }
    if let Some((marker, length, indentation)) = fence {
        strip_leaked_closing_fence(&mut code, marker, length, indentation);
    }
    MarkdownNode::CodeBlock { language, code }
}

/// Renders the children of a block.
fn block_children(source: &str, tree: &SyntaxTree, node: usize) -> (children: Vec<MarkdownNode>)
    requires
        syntax_fits(source@, tree@),
        node < tree.blocks@.len(),
    ensures
        pieces(children@) == block_content(source@, tree@, node as int),
    decreases tree.blocks@.len() - node, 0int,
{
    let ghost all = tree@.blocks;
    let mut children: Vec<MarkdownNode> = Vec::new();
    let limit: usize = find_end(&tree.blocks, node);
    let mut next: usize = node + 1;
    proof {
        assert(pieces(children@) =~= Seq::<MarkdownView>::empty());
        assert(pieces(children@) + block_run(source@, tree@, next as int, limit as int) =~= block_run(
            source@,
            tree@,
            next as int,
            limit as int,
        ));
    }
    while next < limit
        invariant
            all == tree@.blocks,
            syntax_fits(source@, tree@),
            node < next,
            node < tree.blocks@.len(),
            limit <= tree.blocks@.len(),
            limit == subtree_end(all, node as int),
            pieces(children@) + block_run(source@, tree@, next as int, limit as int) == block_content(
                source@,
                tree@,
                node as int,
            ),
        decreases tree.blocks@.len() - next,
    {
        assert(all[next as int] == tree.blocks@[next as int]@);
        let after: usize = find_end(&tree.blocks, next);
        let ghost before = pieces(children@);
        let ghost rest = block_run(source@, tree@, after as int, limit as int);
        if tree.blocks[next].named {
            let added = render_block(source, tree, next);
            append_pieces(&mut children, added);
            assert(before + (pieces(added@) + rest) =~= (before + pieces(added@)) + rest);
        } else {
            assert(before + (Seq::<MarkdownView>::empty() + rest) =~= before + rest);
        }
        next = after;
    }
    proof {
        assert(block_run(source@, tree@, next as int, limit as int) =~= Seq::<MarkdownView>::empty());
        assert(pieces(children@) + Seq::<MarkdownView>::empty() =~= pieces(children@));
    }
    children
}

/// Renders a block.
fn render_block(source: &str, tree: &SyntaxTree, node: usize) -> (rendered: Vec<MarkdownNode>)
    requires
        syntax_fits(source@, tree@),
        node < tree.blocks@.len(),
    ensures
        pieces(rendered@) == block_pieces(source@, tree@, node as int),
    decreases tree.blocks@.len() - node, 2int,
{
    let row = &tree.blocks[node];
    assert(tree@.blocks[node as int] == row@);
    assert(crate::markdown_syntax::row_fits(source@, tree@.blocks[node as int]));
    if has_kind(row, "document") || has_kind(row, "section") {
        block_children(source, tree, node)
    } else if has_kind(row, "paragraph") {
        let children = block_inline(source, tree, node);
        one(MarkdownNode::Paragraph { children })
    } else if has_kind(row, "atx_heading") {
        let children = block_inline(source, tree, node);
        one(MarkdownNode::Heading { level: atx_heading_level(&tree.blocks, node), children })
    } else if has_kind(row, "setext_heading") {
        let children = block_inline(source, tree, node);
        one(MarkdownNode::Heading { level: setext_heading_level(&tree.blocks, node), children })
    } else if has_kind(row, "list") {
        one(render_list(source, tree, node))
    } else if has_kind(row, "block_quote") {
        let children = block_children(source, tree, node);
        one(MarkdownNode::BlockQuote { children })
    } else {
        render_leaf_block(source, tree, node)
    }
}

/// Renders a block of the remaining kinds.
fn render_leaf_block(source: &str, tree: &SyntaxTree, node: usize) -> (rendered: Vec<MarkdownNode>)
    requires
        syntax_fits(source@, tree@),
        node < tree.blocks@.len(),
        ({
            let kind = tree@.blocks[node as int].kind;
            kind != "document"@ && kind != "section"@ && kind != "paragraph"@ && kind != "atx_heading"@
                && kind != "setext_heading"@ && kind != "list"@ && kind != "block_quote"@
        }),
    ensures
        pieces(rendered@) == block_pieces(source@, tree@, node as int),
    decreases tree.blocks@.len() - node, 1int,
{
    let row = &tree.blocks[node];
    assert(tree@.blocks[node as int] == row@);
    assert(crate::markdown_syntax::row_fits(source@, tree@.blocks[node as int]));
    if has_kind(row, "fenced_code_block") {
        one(render_fenced_code(source, &tree.blocks, node))
    } else if has_kind(row, "indented_code_block") {
        let code = dedent_code(node_text(row, source), row.column);
        one(MarkdownNode::CodeBlock { language: None, code })
    } else if has_kind(row, "thematic_break") {
        one(MarkdownNode::ThematicBreak)
    } else if has_kind(row, "html_block") || has_kind(row, "pipe_table") {
        let code = node_text(row, source).to_owned();
        one(MarkdownNode::CodeBlock { language: None, code })
    } else if skipped(row) {
        let none: Vec<MarkdownNode> = Vec::new();
        assert(pieces(none@) =~= Seq::<MarkdownView>::empty());
        none
    } else {
        let children = block_children(source, tree, node);
        if children.len() == 0 {
            let text = trim_end(node_text(row, source));
            let children = one(text_node(text.as_str()));
            one(MarkdownNode::Paragraph { children })
        } else {
            children
        }
    }
}

/// Renders the items of a list.
fn list_items(source: &str, tree: &SyntaxTree, node: usize) -> (items: Vec<Vec<MarkdownNode>>)
    requires
        syntax_fits(source@, tree@),
        node < tree.blocks@.len(),
    ensures
        piece_lists(items@) == item_run(
            source@,
            tree@,
            node + 1,
            subtree_end(tree@.blocks, node as int),
        ),
    decreases tree.blocks@.len() - node, 0int,
{
    let ghost all = tree@.blocks;
    let mut items: Vec<Vec<MarkdownNode>> = Vec::new();
    let limit: usize = find_end(&tree.blocks, node);
    let mut next: usize = node + 1;
    let ghost whole = item_run(source@, tree@, next as int, limit as int);
    proof {
        assert(piece_lists(items@) =~= Seq::<Seq<MarkdownView>>::empty());
        assert(piece_lists(items@) + whole =~= whole);
    }
    while next < limit
        invariant
            all == tree@.blocks,
            syntax_fits(source@, tree@),
            node < next,
            node < tree.blocks@.len(),
            limit <= tree.blocks@.len(),
            limit == subtree_end(all, node as int),
            piece_lists(items@) + item_run(source@, tree@, next as int, limit as int) == whole,
        decreases tree.blocks@.len() - next,
    {
        assert(all[next as int] == tree.blocks@[next as int]@);
        let after: usize = find_end(&tree.blocks, next);
        let ghost before = items@;
        let ghost rest = item_run(source@, tree@, after as int, limit as int);
        if tree.blocks[next].named && has_kind(&tree.blocks[next], "list_item") {
            let item = render_list_item(source, tree, next);
            items.push(item);
            assert(piece_lists(items@) =~= piece_lists(before).push(pieces(item@)));
            assert(piece_lists(before) + (seq![pieces(item@)] + rest) =~= piece_lists(before).push(
                pieces(item@),
            ) + rest);
        } else {
            assert(piece_lists(before) + (Seq::<Seq<MarkdownView>>::empty() + rest) =~= piece_lists(
                before,
            ) + rest);
        }
        next = after;
    }
    proof {
        assert(item_run(source@, tree@, next as int, limit as int) =~= Seq::<Seq<MarkdownView>>::empty());
        assert(piece_lists(items@) + Seq::<Seq<MarkdownView>>::empty() =~= piece_lists(items@));
    }
    items
}

/// Renders a list item.
fn render_list_item(source: &str, tree: &SyntaxTree, node: usize) -> (blocks: Vec<MarkdownNode>)
    requires
        syntax_fits(source@, tree@),
        node < tree.blocks@.len(),
    ensures
        pieces(blocks@) == with_task_marker(
            source@,
            tree@.blocks,
            node as int,
            block_content(source@, tree@, node as int),
        ),
    decreases tree.blocks@.len() - node, 1int,
{
    let ghost all = tree@.blocks;
    let marker = first_of_kinds(
        &tree.blocks,
        node,
        "task_list_marker_checked",
        "task_list_marker_unchecked",
    );
    let mut blocks = block_children(source, tree, node);
    let ghost before = blocks@;
    proof {
        assert(named_children(all, node as int).filter(
            |child: usize|
                all[child as int].kind == "task_list_marker_checked"@ || all[child as int].kind
                    == "task_list_marker_unchecked"@,
        ) =~= named_children(all, node as int).filter(
            |child: usize| is_task_marker(all[child as int].kind),
        )) by {
            assert((|child: usize|
                all[child as int].kind == "task_list_marker_checked"@ || all[child as int].kind
                    == "task_list_marker_unchecked"@) =~= (|child: usize|
                is_task_marker(all[child as int].kind)));
        }
    }
    match marker {
        None => blocks,
        Some(place) => {
            assert(all[place as int] == tree.blocks@[place as int]@);
            assert(crate::markdown_syntax::row_fits(source@, all[place as int]));
            if blocks.len() == 0 {
                return blocks;
            }
            let text = node_text(&tree.blocks[place], source).to_owned().concat(" ");
            let first = blocks.remove(0);
            assert(pieces(before)[0] == piece(first));
            match first {
                MarkdownNode::Paragraph { children } => {
                    let mut children = children;
                    prepend_text(&mut children, text.as_str());
                    blocks.insert(0, MarkdownNode::Paragraph { children });
                    assert(pieces(blocks@) =~= with_task_marker(
                        source@,
                        all,
                        node as int,
                        pieces(before),
                    ));
                },
                other => {
                    assert(!(pieces(before)[0] is Paragraph));
                    blocks.insert(0, other);
                    assert(pieces(blocks@) =~= pieces(before));
                },
            }
            blocks
        },
    }
}

/// Reads the number of a marker.
fn read_marker(text: &str) -> (number: u64)
    ensures
        number == marker_number(text@),
{
    let shorter = trim(text);
    let list = characters(shorter.as_str());
    let mut end: usize = list.len();
    while end > 0 && (list[end - 1] == '.' || list[end - 1] == ')')
        invariant
            end <= list@.len(),
            forall|i: int| end <= i < list@.len() ==> marker_end()(#[trigger] list@[i]),
        decreases end,
    {
        end = end - 1;
    }
    proof {
        crate::markdown_text::lemma_trailing(list@, marker_end(), list@.len() - end);
        assert(list@.subrange(0, end as int) =~= crate::markdown_text::without_trailing(
            trimmed(text@),
            marker_end(),
        ));
    }
    let digits = text_of(&list, 0, end);
    match parse_number(digits.as_str(), u64::MAX) {
        None => 1,
        Some(number) => number,
    }
}

/// Renders a list.
fn render_list(source: &str, tree: &SyntaxTree, node: usize) -> (list: MarkdownNode)
    requires
        syntax_fits(source@, tree@),
        node < tree.blocks@.len(),
    ensures
        list@ == list_piece(
            source@,
            tree@.blocks,
            node as int,
            item_run(source@, tree@, node + 1, subtree_end(tree@.blocks, node as int)),
        ),
    decreases tree.blocks@.len() - node, 1int,
{
    let ghost all = tree@.blocks;
    let items = list_items(source, tree, node);
    let named = list_named_children(&tree.blocks, node);
    if named.len() > 0 {
        let inner = list_named_children(&tree.blocks, named[0]);
        if inner.len() > 0 {
            let marker: usize = inner[0];
            assert(all[marker as int] == tree.blocks@[marker as int]@);
            assert(crate::markdown_syntax::row_fits(source@, all[marker as int]));
            if has_kind(&tree.blocks[marker], "list_marker_dot") || has_kind(
                &tree.blocks[marker],
                "list_marker_parenthesis",
            ) {
                let start: u64 = read_marker(node_text(&tree.blocks[marker], source));
                return MarkdownNode::OrderedList { start, items };
            }
        }
    }
    MarkdownNode::UnorderedList { items }
}

/// Renders the blocks of a source.
pub fn render_syntax(source: &str, tree: &SyntaxTree) -> (blocks: Vec<MarkdownNode>)
    requires
        syntax_fits(source@, tree@),
    ensures
        pieces(blocks@) == block_content(source@, tree@, 0),
{
    block_children(source, tree, 0)
}

} // verus!

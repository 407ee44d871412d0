//! Rendering markdown sources to documents.

use vstd::prelude::*;
use vstd::string::*;
use crate::markdown_model::piece;
use crate::markdown_model::pieces;
use crate::markdown_model::AnchorPayload;
use crate::markdown_model::DocumentView;
use crate::markdown_model::MarkdownDocument;
use crate::markdown_model::MarkdownNode;
use crate::markdown_model::MarkdownView;
use crate::markdown_model::NodeContent;
use crate::markdown_render::block_content;
use crate::markdown_render::render_syntax;
use crate::markdown_syntax::check_syntax;
use crate::markdown_syntax::markdown_syntax;
use crate::markdown_syntax::parse_syntax;
use crate::markdown_syntax::syntax_fits;
use crate::markdown_syntax::SyntaxTree;
use crate::markdown_syntax::SyntaxView;
use crate::markdown_text::can_slice;
use crate::markdown_text::count_leading;
use crate::markdown_text::cut;
use crate::markdown_text::is_slice;
use crate::markdown_text::just;
use crate::markdown_text::leading;
use crate::markdown_text::lemma_leading;
use crate::markdown_text::lemma_trailing;
use crate::markdown_text::slice;
use crate::markdown_text::trailing;
use crate::ordered::texts;
use crate::ordered::TextSet;
use crate::text::characters;
use crate::text::text_of;

verus! {

/// The characters of a line.
pub open spec fn not_newline() -> spec_fn(char) -> bool {
    |character: char| character != '\n'
}

/// The first line of a text, without its end.
pub open spec fn first_line(text: Seq<char>) -> Seq<char> {
    text.take(leading(text, not_newline()) as int)
}

/// The fence that opens a code block: its character, its length, and its indentation.
pub open spec fn fence_of(block: Seq<char>, start_column: nat) -> Option<(u8, nat, nat)> {
    let line = first_line(block);
    let indentation = leading(line, just(' '));
    let opening = line.skip(indentation as int);
    if opening.len() == 0 || (opening[0] != '`' && opening[0] != '~') {
        None
    } else {
        let length = leading(opening, just(opening[0]));
        if length >= 3 {
            Some((opening[0] as u8, length, start_column + indentation))
        } else {
            None
        }
    }
}

/// The fence that opens a code block.
pub fn opening_fence(block: &str, start_column: usize) -> (fence: Option<(u8, usize, usize)>)
    requires
        start_column + block@.len() <= usize::MAX,
    ensures
        match fence {
            Some((marker, length, indentation)) => fence_of(block@, start_column as nat) == Some(
                (marker, length as nat, indentation as nat),
            ) && (marker == 96 || marker == 126),
            None => fence_of(block@, start_column as nat) is None,
        },
{
    let list = characters(block);
    let mut end: usize = 0;
    while end < list.len() && list[end] != '\n'
        invariant
            end <= list@.len(),
            forall|i: int| 0 <= i < end ==> #[trigger] list@[i] != '\n',
        decreases list@.len() - end,
    {
        end = end + 1;
    }
    proof {
        lemma_leading(list@, not_newline(), end as int);
    }
    let line = first_characters(&list, end);
    let indentation: usize = count_leading(&line, 0, ' ');
    assert(line@.skip(0) =~= line@);
    if indentation == line.len() {
        return None;
    }
    let marker = line[indentation];
    let ghost opening = line@.skip(indentation as int);
    assert(opening[0] == marker);
    if marker != '`' && marker != '~' {
        return None;
    }
    let length: usize = count_leading(&line, indentation, marker);
    if length >= 3 {
        Some((marker as u8, length, start_column + indentation))
    } else {
        None
    }
}

/// The first characters of a list.
fn first_characters(list: &Vec<char>, count: usize) -> (first: Vec<char>)
    requires
        count <= list@.len(),
    ensures
        first@ == list@.take(count as int),
{
    let mut first: Vec<char> = Vec::new();
    let mut i: usize = 0;
    while i < count
        invariant
            i <= count <= list@.len(),
            first@ == list@.take(i as int),
        decreases count - i,
    {
        first.push(list[i]);
        assert(first@ =~= list@.take(i + 1));
        i += 1;
    }
    first
}

/// How far apart two numbers are.
pub open spec fn apart(a: nat, b: nat) -> nat {
    if a < b {
        (b - a) as nat
    } else {
        (a - b) as nat
    }
}

/// Blanks and tabs.
pub open spec fn blank(character: char) -> bool {
    character == ' ' || character == '\t'
}

/// How many times a marker stands at the start of a text. A byte outside ASCII is no character,
/// so it never does.
pub open spec fn marker_run(text: Seq<char>, marker: u8) -> nat {
    if marker < 128 {
        leading(text, just(marker as char))
    } else {
        0
    }
}

/// Whether a last line closes the fence of its code block.
pub open spec fn closes_fence(
    line: Seq<char>,
    marker: u8,
    minimum_length: nat,
    opening_indentation: nat,
) -> bool {
    let indentation = leading(line, just(' '));
    let rest = line.skip(indentation as int);
    let length = marker_run(rest, marker);
    &&& apart(indentation, opening_indentation) <= 3
    &&& length >= minimum_length
    &&& forall|i: int| length <= i < rest.len() ==> blank(#[trigger] rest[i])
}

/// Code without a last line that closes its fence.
pub open spec fn without_closing_fence(
    code: Seq<char>,
    marker: u8,
    minimum_length: nat,
    opening_indentation: nat,
) -> Seq<char> {
    let start = code.len() - trailing(code, not_newline());
    if closes_fence(code.skip(start), marker, minimum_length, opening_indentation) {
        code.take(start)
    } else {
        code
    }
}

/// Removes a last line that closes the fence of its code block. The parser counts such a line
/// as code where no newline follows it.
pub fn strip_leaked_closing_fence(
    code: &mut String,
    marker: u8,
    minimum_length: usize,
    opening_indentation: usize,
)
    ensures
        final(code)@ == without_closing_fence(
            old(code)@,
            marker,
            minimum_length as nat,
            opening_indentation as nat,
        ),
{
    let list = characters(code.as_str());
    let mut start: usize = list.len();
    while start > 0 && list[start - 1] != '\n'
        invariant
            start <= list@.len(),
            forall|i: int| start <= i < list@.len() ==> #[trigger] list@[i] != '\n',
        decreases start,
    {
        start = start - 1;
    }
    let ghost line = list@.skip(start as int);
    proof {
        lemma_trailing(list@, not_newline(), list@.len() - start);
    }
    let indentation: usize = count_leading(&list, start, ' ');
    let difference: usize = if indentation < opening_indentation {
        opening_indentation - indentation
    } else {
        indentation - opening_indentation
    };
    if difference > 3 {
        return ;
    }
    let inner: usize = start + indentation;
    let ghost rest = line.skip(indentation as int);
    assert(rest =~= list@.skip(inner as int));
    let length: usize = if marker < 128 {
        count_leading(&list, inner, marker as char)
    } else {
        0
    };
    if length < minimum_length {
        return ;
    }
    let mut i: usize = inner + length;
    while i < list.len()
        invariant
            inner + length <= i <= list@.len(),
            rest == list@.skip(inner as int),
            inner <= list@.len(),
            list@ == old(code)@,
            line == list@.skip(start as int),
            rest == line.skip(indentation as int),
            indentation == leading(line, just(' ')),
            length == marker_run(rest, marker),
            start == list@.len() - trailing(list@, not_newline()),
            code@ == old(code)@,
            forall|k: int| length <= k < i - inner ==> blank(#[trigger] rest[k]),
        decreases list@.len() - i,
    {
        if list[i] != ' ' && list[i] != '\t' {
            assert(!blank(rest[i - inner]));
            return ;
        }
        assert(rest[i - inner] == list@[i as int]);
        i += 1;
    }
    assert(list@.subrange(0, start as int) =~= list@.take(start as int));
    *code = text_of(&list, 0, start);
}

/// A code span with its newlines as blanks.
pub open spec fn unwrapped(text: Seq<char>) -> Seq<char> {
    text.map_values(
        |character: char|
            if character == '\n' {
                ' '
            } else {
                character
            },
    )
}

/// The text of a code span: newlines are blanks, and one blank is removed at each end where
/// both ends have one and not all is blank.
pub open spec fn normalized_span(text: Seq<char>) -> Seq<char> {
    let line = unwrapped(text);
    if line.len() > 0 && line[0] == ' ' && line.last() == ' ' && exists|i: int|
        0 <= i < line.len() && #[trigger] line[i] != ' ' {
        line.subrange(1, line.len() - 1)
    } else {
        line
    }
}

/// The text of a code span.
pub fn normalize_code_span(text: &str) -> (span: String)
    ensures
        span@ == normalized_span(text@),
{
    let source = characters(text);
    let mut line: Vec<char> = Vec::new();
    let mut has_text = false;
    let mut i: usize = 0;
    while i < source.len()
        invariant
            0 <= i <= source@.len(),
            line@ == unwrapped(source@.take(i as int)),
            has_text <==> exists|k: int| 0 <= k < line@.len() && #[trigger] line@[k] != ' ',
        decreases source@.len() - i,
    {
        let character = if source[i] == '\n' {
            ' '
        } else {
            source[i]
        };
        let ghost before = line@;
        line.push(character);
        if character != ' ' {
            has_text = true;
            assert(line@[i as int] != ' ');
        }
        proof {
            assert(line@ =~= unwrapped(source@.take(i + 1)));
            if exists|k: int| 0 <= k < before.len() && #[trigger] before[k] != ' ' {
                let k = choose|k: int| 0 <= k < before.len() && #[trigger] before[k] != ' ';
                assert(line@[k] != ' ');
            }
            if exists|k: int| 0 <= k < line@.len() && #[trigger] line@[k] != ' ' {
                let k = choose|k: int| 0 <= k < line@.len() && #[trigger] line@[k] != ' ';
                if k < before.len() {
                    assert(before[k] != ' ');
                }
            }
        }
        i += 1;
    }
    assert(source@.take(i as int) =~= source@);
    let count: usize = line.len();
    if count > 0 && line[0] == ' ' && line[count - 1] == ' ' && has_text {
        proof {
            let k = choose|k: int| 0 <= k < line@.len() && #[trigger] line@[k] != ' ';
            assert(0 < k < count - 1);
        }
        text_of(&line, 1, count - 1)
    } else {
        assert(line@.subrange(0, count as int) =~= line@);
        text_of(&line, 0, count)
    }
}

/// The text between the delimiters of a code span.
pub open spec fn span_inside(text: Seq<char>) -> Seq<char> {
    let size = vstd::utf8::encode_utf8(text).len() as int;
    let delimiter = leading(text, just('`')) as int;
    let end = if delimiter < size {
        size - delimiter
    } else {
        0
    };
    if is_slice(text, delimiter, end) {
        slice(text, delimiter, end)
    } else {
        Seq::empty()
    }
}

/// The text of a code span with its delimiters.
pub fn code_span_text(text: &str) -> (span: String)
    ensures
        span@ == normalized_span(span_inside(text@)),
{
    let list = characters(text);
    let delimiter: usize = count_leading(&list, 0, '`');
    assert(list@.skip(0) =~= list@);
    let end: usize = text.as_bytes().len().saturating_sub(delimiter);
    if can_slice(text, delimiter, end) {
        normalize_code_span(cut(text, delimiter, end))
    } else {
        let empty = String::new();
        normalize_code_span(empty.as_str())
    }
}

/// How many of the first characters of a line are indentation up to a column. A tab reaches to
/// the next multiple of four.
pub open spec fn indentation_of(line: Seq<char>, columns: int, target: int) -> nat
    decreases line.len(),
{
    if line.len() == 0 || columns >= target {
        0
    } else if line[0] == ' ' {
        1 + indentation_of(line.drop_first(), columns + 1, target)
    } else if line[0] == '\t' {
        1 + indentation_of(line.drop_first(), columns + 4 - columns % 4, target)
    } else {
        0
    }
}

/// How many of the first characters of a line are indentation up to a column.
pub fn indentation_offset(line: &str, target_columns: usize) -> (offset: usize)
    ensures
        offset == indentation_of(line@, 0, target_columns as int),
        offset <= line@.len(),
{
    let list = characters(line);
    let mut columns: usize = 0;
    let mut offset: usize = 0;
    let ghost mut exact: int = 0;
    assert(list@.skip(0) =~= line@);
    while offset < list.len() && columns < target_columns && (list[offset] == ' ' || list[offset] == '\t')
        invariant
            offset <= list@.len(),
            list@ == line@,
            exact >= 0,
            columns == exact || (columns == usize::MAX && exact >= usize::MAX),
            indentation_of(line@, 0, target_columns as int) == offset + indentation_of(
                list@.skip(offset as int),
                exact,
                target_columns as int,
            ),
        decreases list@.len() - offset,
    {
        let step: usize = if list[offset] == ' ' {
            1
        } else {
            4 - columns % 4
        };
        proof {
            assert(list@.skip(offset as int)[0] == list@[offset as int]);
            assert(list@.skip(offset as int).drop_first() =~= list@.skip(offset + 1));
            exact = exact + step;
        }
        columns = columns.saturating_add(step);
        offset += 1;
    }
    proof {
        let rest = list@.skip(offset as int);
        if offset < list@.len() {
            assert(rest[0] == list@[offset as int]);
        }
    }
    offset
}

/// The length of the first line of a text, with its newline.
pub open spec fn line_length(text: Seq<char>) -> int {
    let length = leading(text, not_newline()) as int;
    if length < text.len() {
        length + 1
    } else {
        length
    }
}

/// Indented code without the indentation that makes it code: four columns on each line, and
/// that of its container on the lines behind the first.
pub open spec fn dedented(text: Seq<char>, first: bool, column: int) -> Seq<char>
    decreases text.len(),
{
    if !(0 < line_length(text) <= text.len()) {
        Seq::empty()
    } else {
        let line = text.take(line_length(text));
        let target = if first {
            4
        } else {
            4 + column
        };
        line.skip(indentation_of(line, 0, target) as int) + dedented(
            text.skip(line_length(text)),
            false,
            column,
        )
    }
}

/// Indentation is part of its line.
proof fn lemma_indentation_bounded(line: Seq<char>, columns: int, target: int)
    ensures
        indentation_of(line, columns, target) <= line.len(),
    decreases line.len(),
{
    if line.len() > 0 {
        lemma_indentation_bounded(line.drop_first(), columns + 1, target);
        lemma_indentation_bounded(line.drop_first(), columns + 4 - columns % 4, target);
    }
}

/// Removes the indentation of indented code.
pub fn dedent_code(text: &str, container_column: usize) -> (code: String)
    requires
        container_column <= usize::MAX - 4,
    ensures
        code@ == dedented(text@, true, container_column as int),
{
    let list = characters(text);
    let mut code = String::new();
    let mut start: usize = 0;
    let mut first = true;
    proof {
        assert(list@.skip(0) =~= text@);
        assert(code@ + dedented(text@, true, container_column as int) =~= dedented(
            text@,
            true,
            container_column as int,
        ));
    }
    while start < list.len()
        invariant
            container_column <= usize::MAX - 4,
            list@ == text@,
            start <= list@.len(),
            code@ + dedented(list@.skip(start as int), first, container_column as int) == dedented(
                text@,
                true,
                container_column as int,
            ),
        decreases list@.len() - start,
    {
        let ghost rest = list@.skip(start as int);
        let mut end: usize = start;
        while end < list.len() && list[end] != '\n'
            invariant
                start <= end <= list@.len(),
                forall|i: int| start <= i < end ==> #[trigger] list@[i] != '\n',
            decreases list@.len() - end,
        {
            end = end + 1;
        }
        proof {
            assert forall|i: int| 0 <= i < end - start implies not_newline()(#[trigger] rest[i]) by {
                assert(rest[i] == list@[start + i]);
            }
            if end < list@.len() {
                assert(rest[end - start] == list@[end as int]);
            }
            lemma_leading(rest, not_newline(), end - start);
        }
        if end < list.len() {
            end = end + 1;
        }
        let line = text_of(&list, start, end);
        let target: usize = if first {
            4
        } else {
            4 + container_column
        };
        let offset: usize = indentation_offset(line.as_str(), target);
        let ghost before = code@;
        proof {
            assert(line@ =~= rest.take(line_length(rest)));
            assert(rest.skip(line_length(rest)) =~= list@.skip(end as int));
        }
        let kept = text_of(&list, start + offset, end);
        code.append(kept.as_str());
        proof {
            assert(kept@ =~= line@.skip(offset as int));
            assert(code@ + dedented(list@.skip(end as int), false, container_column as int) =~= before + (
            kept@ + dedented(list@.skip(end as int), false, container_column as int)));
        }
        start = end;
        first = false;
    }
    proof {
        assert(list@.skip(start as int) =~= Seq::<char>::empty());
        assert(code@ + Seq::<char>::empty() =~= code@);
    }
    code
}

/// A list of pieces with a text behind them, joined to a last text.
pub open spec fn with_text(rendered: Seq<MarkdownView>, text: Seq<char>) -> Seq<MarkdownView> {
    if text.len() == 0 {
        rendered
    } else if rendered.len() > 0 && rendered.last() is Text {
        rendered.drop_last().push(MarkdownView::Text { text: rendered.last()->Text_text + text })
    } else {
        rendered.push(MarkdownView::Text { text })
    }
}

/// A piece of text.
pub fn text_node(text: &str) -> (node: MarkdownNode)
    ensures
        node@ == (MarkdownView::Text { text: text@ }),
{
    MarkdownNode::Text { text: text.to_owned() }
}

/// Adding a piece adds its view.
pub(crate) proof fn lemma_pieces_push(nodes: Seq<MarkdownNode>, node: MarkdownNode)
    ensures
        pieces(nodes.push(node)) == pieces(nodes).push(piece(node)),
{
    assert(pieces(nodes.push(node)) =~= pieces(nodes).push(piece(node)));
}

/// Appends a text, joined to a last text.
pub fn push_text(rendered: &mut Vec<MarkdownNode>, text: &str)
    ensures
        pieces(final(rendered)@) == with_text(pieces(old(rendered)@), text@),
{
    if text.is_empty() {
        return ;
    }
    let ghost before = rendered@;
    match rendered.pop() {
        None => {
            rendered.push(text_node(text));
            assert(pieces(rendered@) =~= with_text(pieces(before), text@));
        },
        Some(last) => {
            assert(before =~= rendered@.push(last));
            assert(pieces(before).last() == piece(last));
            assert(pieces(before).drop_last() =~= pieces(rendered@));
            match last {
                MarkdownNode::Text { text: previous } => {
                    let mut joined = previous;
                    joined.append(text);
                    rendered.push(MarkdownNode::Text { text: joined });
                    assert(pieces(rendered@) =~= with_text(pieces(before), text@));
                },
                other => {
                    assert(!(pieces(before).last() is Text));
                    rendered.push(other);
                    rendered.push(text_node(text));
                    assert(pieces(rendered@) =~= with_text(pieces(before), text@));
                },
            }
        },
    }
}

/// A list of pieces with a text before them, joined to a first text.
pub open spec fn after_text(rendered: Seq<MarkdownView>, text: Seq<char>) -> Seq<MarkdownView> {
    if rendered.len() > 0 && rendered[0] is Text {
        rendered.update(0, MarkdownView::Text { text: text + rendered[0]->Text_text })
    } else {
        seq![MarkdownView::Text { text }] + rendered
    }
}

/// Puts a text before others, joined to a first text.
pub fn prepend_text(rendered: &mut Vec<MarkdownNode>, text: &str)
    ensures
        pieces(final(rendered)@) == after_text(pieces(old(rendered)@), text@),
{
    let ghost before = rendered@;
    if rendered.len() == 0 {
        rendered.insert(0, text_node(text));
        assert(pieces(rendered@) =~= after_text(pieces(before), text@));
        return ;
    }
    let first = rendered.remove(0);
    assert(pieces(before)[0] == piece(first));
    match first {
        MarkdownNode::Text { text: following } => {
            let joined = text.to_owned().concat(following.as_str());
            rendered.insert(0, MarkdownNode::Text { text: joined });
            assert(pieces(rendered@) =~= after_text(pieces(before), text@));
        },
        other => {
            assert(!(pieces(before)[0] is Text));
            rendered.insert(0, other);
            rendered.insert(0, text_node(text));
            assert(pieces(rendered@) =~= after_text(pieces(before), text@));
        },
    }
}

/// The document that a source with the given syntax renders to.
pub open spec fn rendered_document(source: Seq<char>, tree: SyntaxView) -> DocumentView {
    DocumentView { source, blocks: block_content(source, tree, 0) }
}

/// Renders a source with its syntax.
pub fn document_from_syntax(source: &str, tree: &SyntaxTree) -> (document: MarkdownDocument)
    requires
        syntax_fits(source@, tree@),
    ensures
        document@ == rendered_document(source@, tree@),
{
    MarkdownDocument { source: source.to_owned(), blocks: render_syntax(source, tree) }
}

/// The document of a source, where the parser finds a syntax that belongs to it.
pub open spec fn document_of(source: Seq<char>) -> Option<DocumentView> {
    match markdown_syntax(source) {
        None => None,
        Some(tree) => if syntax_fits(source, tree) {
            Some(rendered_document(source, tree))
        } else {
            None
        },
    }
}

/// Renders a markdown source.
pub fn markdown_document(source: &str) -> (document: Option<MarkdownDocument>)
    ensures
        match document {
            Some(found) => document_of(source@) == Some(found@),
            None => document_of(source@) is None,
        },
{
    match parse_syntax(source) {
        None => None,
        Some(tree) => {
            if check_syntax(source, &tree) {
                Some(document_from_syntax(source, &tree))
            } else {
                None
            }
        },
    }
}

/// The markdown sources of a node, in the order in which they are shown.
pub open spec fn markdown_sources(content: NodeContent) -> Seq<Seq<char>> {
    match content {
        NodeContent::Text { text } => seq![text@],
        NodeContent::Anchor { payload } => match payload {
            AnchorPayload::Session { prompt, system_prompt } => seq![prompt@, system_prompt@],
            AnchorPayload::Prompt { prompt } => seq![prompt@],
            AnchorPayload::SkillInvocation { handoff_prompt } => match handoff_prompt {
                Some(prompt) => seq![prompt@],
                None => Seq::empty(),
            },
            AnchorPayload::SkillResult { output } => seq![output@],
            AnchorPayload::SessionPatch => Seq::empty(),
        },
        NodeContent::ToolUse => Seq::empty(),
        NodeContent::ToolResult => Seq::empty(),
        NodeContent::Failure => Seq::empty(),
    }
}

/// The documents of some sources: each source once, and none for an empty one.
pub open spec fn documents_of(sources: Seq<Seq<char>>) -> Seq<DocumentView>
    decreases sources.len(),
{
    if sources.len() == 0 {
        Seq::empty()
    } else {
        let before = documents_of(sources.drop_last());
        let last = sources.last();
        if last.len() > 0 && !sources.drop_last().contains(last) && document_of(last) is Some {
            before.push(document_of(last)->0)
        } else {
            before
        }
    }
}

/// Documents with their texts as characters.
pub open spec fn document_views(documents: Seq<MarkdownDocument>) -> Seq<DocumentView> {
    documents.map_values(|document: MarkdownDocument| document@)
}

/// Lists the markdown sources of a node.
fn list_sources(content: &NodeContent) -> (sources: Vec<String>)
    ensures
        texts(sources@) == markdown_sources(*content),
{
    let mut sources: Vec<String> = Vec::new();
    match content {
        NodeContent::Text { text } => {
            sources.push(text.clone());
        },
        NodeContent::Anchor { payload } => match payload {
            AnchorPayload::Session { prompt, system_prompt } => {
                sources.push(prompt.clone());
                sources.push(system_prompt.clone());
            },
            AnchorPayload::Prompt { prompt } => {
                sources.push(prompt.clone());
            },
            AnchorPayload::SkillInvocation { handoff_prompt } => {
                if let Some(prompt) = handoff_prompt {
                    sources.push(prompt.clone());
                }
            },
            AnchorPayload::SkillResult { output } => {
                sources.push(output.clone());
            },
            AnchorPayload::SessionPatch => {},
        },
        NodeContent::ToolUse => {},
        NodeContent::ToolResult => {},
        NodeContent::Failure => {},
    }
    assert(texts(sources@) =~= markdown_sources(*content));
    sources
}

/// Renders the markdown sources of a node. What tools use and return, and failures, are not
/// markdown.
pub fn node_markdown_documents(content: &NodeContent) -> (documents: Vec<MarkdownDocument>)
    ensures
        document_views(documents@) == documents_of(markdown_sources(*content)),
{
    let sources = list_sources(content);
    let ghost all = texts(sources@);
    let mut seen = TextSet::new();
    let mut documents: Vec<MarkdownDocument> = Vec::new();
    let mut i: usize = 0;
    proof {
        assert(all.take(0) =~= Seq::<Seq<char>>::empty());
        assert(seen@ =~= all.take(0).to_set());
        assert(document_views(documents@) =~= documents_of(all.take(0)));
    }
    while i < sources.len()
        invariant
            all == texts(sources@),
            0 <= i <= sources.len(),
            seen.wf(),
            seen@ == all.take(i as int).to_set(),
            document_views(documents@) == documents_of(all.take(i as int)),
        decreases sources.len() - i,
    {
        let source = sources[i].as_str();
        let ghost before = documents@;
        proof {
            assert(all[i as int] == source@);
            assert(all.take(i + 1).drop_last() =~= all.take(i as int));
            assert(all.take(i + 1).last() == source@);
            assert(all.take(i + 1) =~= all.take(i as int).push(source@));
            assert forall|text: Seq<char>| all.take(i + 1).to_set().contains(text) <==> all.take(
                i as int,
            ).to_set().insert(source@).contains(text) by {
                crate::sequences::lemma_push_members(all.take(i as int), source@, text);
            }
            assert(all.take(i + 1).to_set() =~= all.take(i as int).to_set().insert(source@));
        }
        let fresh = seen.insert(source.to_owned());
        if !source.is_empty() && fresh {
            if let Some(document) = markdown_document(source) {
                documents.push(document);
                assert(document_views(documents@) =~= document_views(before).push(document@));
            }
        }
        i += 1;
    }
    assert(all.take(i as int) =~= all);
    documents
}

/// The documents of a node have different sources, none of them empty.
pub proof fn lemma_documents_distinct(sources: Seq<Seq<char>>, a: int, b: int)
    requires
        0 <= a < b < documents_of(sources).len(),
    ensures
        documents_of(sources)[a].source != documents_of(sources)[b].source,
        documents_of(sources)[a].source.len() > 0,
        documents_of(sources)[b].source.len() > 0,
    decreases sources.len(),
{
    let rest = sources.drop_last();
    let before = documents_of(rest);
    if b < before.len() {
        lemma_documents_distinct(rest, a, b);
    } else {
        lemma_documents_known(rest, a);
    }
}

proof fn lemma_documents_known(sources: Seq<Seq<char>>, index: int)
    requires
        0 <= index < documents_of(sources).len(),
    ensures
        sources.contains(documents_of(sources)[index].source),
        documents_of(sources)[index].source.len() > 0,
    decreases sources.len(),
{
    let rest = sources.drop_last();
    if index < documents_of(rest).len() {
        lemma_documents_known(rest, index);
        let n = rest.index_of(documents_of(rest)[index].source);
        assert(sources[n] == documents_of(sources)[index].source);
    } else {
        assert(sources[sources.len() - 1] == documents_of(sources)[index].source);
    }
}

/// Pushing texts one after the other is pushing them as one.
pub proof fn lemma_texts_join(rendered: Seq<MarkdownView>, first: Seq<char>, second: Seq<char>)
    ensures
        with_text(with_text(rendered, first), second) == with_text(rendered, first + second),
{
    if first.len() == 0 {
        assert(first + second =~= second);
    } else if second.len() == 0 {
        assert(first + second =~= first);
    } else {
        let once = with_text(rendered, first);
        if rendered.len() > 0 && rendered.last() is Text {
            let text = rendered.last()->Text_text;
            assert(once.drop_last() =~= rendered.drop_last());
            assert((text + first) + second =~= text + (first + second));
        } else {
            assert(once.drop_last() =~= rendered);
        }
        assert(with_text(once, second) =~= with_text(rendered, first + second));
    }
}

/// A code span keeps its length, or loses one blank at each end.
pub proof fn lemma_span_length(text: Seq<char>)
    ensures
        normalized_span(text).len() == text.len() || normalized_span(text).len() == text.len() - 2,
{
    let line = unwrapped(text);
    if line.len() > 0 && line[0] == ' ' && line.last() == ' ' && exists|i: int|
        0 <= i < line.len() && #[trigger] line[i] != ' ' {
        let i = choose|i: int| 0 <= i < line.len() && #[trigger] line[i] != ' ';
        assert(0 < i < line.len() - 1);
    }
}

} // verus!

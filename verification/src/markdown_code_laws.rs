//! What holds of code in rendered documents, and of the documents of a node.

use vstd::prelude::*;
use crate::markdown::closes_fence;
use crate::markdown::dedented;
use crate::markdown::document_of;
use crate::markdown::documents_of;
use crate::markdown::fence_of;
use crate::markdown::first_line;
use crate::markdown::indentation_of;
use crate::markdown::line_length;
use crate::markdown::markdown_sources;
use crate::markdown::normalized_span;
use crate::markdown::not_newline;
use crate::markdown::rendered_document;
use crate::markdown::span_inside;
use crate::markdown::unwrapped;
use crate::markdown::without_closing_fence;
use crate::markdown_laws::flat_text;
use crate::markdown_model::AnchorPayload;
use crate::markdown_model::DocumentView;
use crate::markdown_model::MarkdownView;
use crate::markdown_model::NodeContent;
use crate::markdown_render::block_pieces;
use crate::markdown_render::children_of_kind;
use crate::markdown_render::inline_piece;
use crate::markdown_render::is_task_marker;
use crate::markdown_render::list_piece;
use crate::markdown_render::marker_number;
use crate::markdown_render::named_children;
use crate::markdown_render::row_text;
use crate::markdown_render::with_task_marker;
use crate::markdown_syntax::rows_fit;
use crate::markdown_syntax::syntax_fits;
use crate::markdown_syntax::RowView;
use crate::markdown_syntax::SyntaxView;
use crate::markdown_text::just;
use crate::markdown_text::leading;
use crate::markdown_text::lemma_leading;
use crate::markdown_text::lemma_trailing;
use crate::markdown_text::trailing;

verus! {

/// A character, so many times.
pub open spec fn repeated(character: char, count: nat) -> Seq<char> {
    Seq::new(count, |i: int| character)
}

/// Whether a text has no newline.
pub open spec fn is_line(text: Seq<char>) -> bool {
    forall|i: int| 0 <= i < text.len() ==> #[trigger] text[i] != '\n'
}

/// A code span has no newline, and one that has none stays as it is where a character other than a
/// blank stands at either end. A blank at both ends is removed, one at each, where something else
/// lies between them.
pub proof fn lemma_span_text(text: Seq<char>)
    ensures
        is_line(normalized_span(text)),
        is_line(text) && text.len() > 0 && (text[0] != ' ' || text.last() != ' ') ==> normalized_span(text)
            == text,
        is_line(text) && text.len() > 0 && text != repeated(' ', text.len()) ==> normalized_span(
            seq![' '] + text + seq![' '],
        ) == text,
        normalized_span(repeated(' ', text.len())) == repeated(' ', text.len()),
{
    let line = unwrapped(text);
    assert(is_line(line));
    if is_line(text) {
        assert(line =~= text);
        let wide = seq![' '] + text + seq![' '];
        assert(unwrapped(wide) =~= wide);
        if text != repeated(' ', text.len()) {
            if forall|i: int| 0 <= i < text.len() ==> #[trigger] text[i] == ' ' {
                assert(text =~= repeated(' ', text.len()));
            }
            let i = choose|i: int| 0 <= i < text.len() && #[trigger] text[i] != ' ';
            assert(wide[i + 1] != ' ');
            assert(wide.subrange(1, wide.len() - 1) =~= text);
        }
    }
    let blanks = repeated(' ', text.len());
    assert(unwrapped(blanks) =~= blanks);
}

proof fn lemma_encoded_join(a: Seq<char>, b: Seq<char>)
    ensures
        vstd::utf8::encode_utf8(a + b) == vstd::utf8::encode_utf8(a) + vstd::utf8::encode_utf8(b),
    decreases a.len(),
{
    if a.len() == 0 {
        assert(a + b =~= b);
        assert(vstd::utf8::encode_utf8(a) + vstd::utf8::encode_utf8(b) =~= vstd::utf8::encode_utf8(b));
    } else {
        lemma_encoded_join(a.drop_first(), b);
        assert((a + b).drop_first() =~= a.drop_first() + b);
        let head = vstd::utf8::encode_scalar(a[0] as u32);
        assert(head + (vstd::utf8::encode_utf8(a.drop_first()) + vstd::utf8::encode_utf8(b)) =~= head
            + vstd::utf8::encode_utf8(a.drop_first()) + vstd::utf8::encode_utf8(b));
    }
}

/// Of a code span what stands between its backticks is taken, whatever their number.
#[verifier::rlimit(40)]
pub proof fn lemma_span_between_backticks(inner: Seq<char>, count: nat)
    requires
        inner.len() > 0,
        inner[0] != '`',
    ensures
        span_inside(repeated('`', count) + inner + repeated('`', count)) == inner,
{
    let ticks = repeated('`', count);
    let text = ticks + inner + ticks;
    let bytes = vstd::utf8::encode_utf8(text);
    let inside = vstd::utf8::encode_utf8(inner);
    vstd::utf8::is_ascii_chars_encode_utf8(ticks);
    lemma_encoded_join(ticks + inner, ticks);
    lemma_encoded_join(ticks, inner);
    lemma_leading(text, just('`'), count as int);
    let side = vstd::utf8::encode_utf8(ticks);
    assert(side.len() == count);
    crate::markdown_text::lemma_fewer_characters(inner);
    let end = bytes.len() - count;
    assert(bytes.subrange(count as int, end) =~= inside);
    vstd::utf8::encode_utf8_decode_utf8(inner);
    vstd::utf8::encode_utf8_valid_utf8(text);
    vstd::utf8::encode_utf8_valid_utf8(ticks);
    vstd::utf8::encode_utf8_valid_utf8(inner);
    vstd::utf8::encode_utf8_valid_utf8(ticks + inner);
    vstd::utf8::valid_utf8_concat(inside, side);
    lemma_joint_is_boundary(side, inside + side);
    assert(side + (inside + side) =~= bytes);
    lemma_joint_is_boundary(side + inside, side);
    assert(side + inside + side =~= bytes);
}

proof fn lemma_joint_is_boundary(a: Seq<u8>, b: Seq<u8>)
    requires
        vstd::utf8::valid_utf8(a),
        vstd::utf8::valid_utf8(b),
    ensures
        vstd::utf8::is_char_boundary(a + b, a.len() as int),
    decreases a.len(),
{
    vstd::utf8::valid_utf8_concat(a, b);
    if a.len() > 0 {
        let rest = vstd::utf8::pop_first_scalar(a);
        lemma_joint_is_boundary(rest, b);
        assert(vstd::utf8::pop_first_scalar(a + b) =~= rest + b);
    }
}

/// The fence of a code block is the run of three or more backticks or tildes, whichever it begins
/// with, behind the blanks of its first line. Its indentation counts from the column of the block.
pub proof fn lemma_fence(
    indentation: nat,
    mark: char,
    count: nat,
    info: Seq<char>,
    rest: Seq<char>,
    column: nat,
)
    requires
        mark == '`' || mark == '~',
        count >= 1,
        is_line(info),
        info.len() > 0 ==> info[0] != mark,
        rest.len() > 0 ==> rest[0] == '\n',
    ensures
        fence_of(repeated(' ', indentation) + repeated(mark, count) + info + rest, column) == (if count
            >= 3 {
            Some((mark as u8, count, column + indentation))
        } else {
            None
        }),
{
    let blanks = repeated(' ', indentation);
    let marks = repeated(mark, count);
    let line = blanks + marks + info;
    let block = line + rest;
    lemma_leading(block, not_newline(), line.len() as int);
    assert(first_line(block) =~= line);
    lemma_leading(line, just(' '), indentation as int);
    let opening = marks + info;
    assert(line.skip(indentation as int) =~= opening);
    lemma_leading(opening, just(mark), count as int);
}

/// A last line that holds at least as many marks as the opening fence, and blanks behind them,
/// closes it and is no code, where it is indented much like the fence.
#[verifier::rlimit(40)]
pub proof fn lemma_closing_fence_is_removed(
    code: Seq<char>,
    indentation: nat,
    mark: u8,
    count: nat,
    blanks: nat,
    minimum: nat,
    opening: nat,
)
    requires
        mark == 96 || mark == 126,
        code.len() == 0 || code.last() == '\n',
        count >= minimum >= 1,
        indentation <= opening + 3,
        opening <= indentation + 3,
    ensures
        without_closing_fence(
            code + repeated(' ', indentation) + repeated(mark as char, count) + repeated(' ', blanks),
            mark,
            minimum,
            opening,
        ) == code,
{
    let marks = repeated(mark as char, count);
    let behind = repeated(' ', blanks);
    let line = repeated(' ', indentation) + marks + behind;
    let text = code + repeated(' ', indentation) + marks + behind;
    assert(96u8 as char == '`' && 126u8 as char == '~');
    assert(text =~= code + line);
    assert forall|i: int| 0 <= i < line.len() implies #[trigger] line[i] != '\n' by {}
    assert forall|i: int| text.len() - line.len() <= i < text.len() implies not_newline()(
        #[trigger] text[i],
    ) by {
        assert(text[i] == line[i - code.len()]);
    }
    if code.len() > 0 {
        assert(text[code.len() - 1] == '\n');
    }
    lemma_trailing(text, not_newline(), line.len() as int);
    assert(text.skip(code.len() as int) =~= line);
    assert(text.take(code.len() as int) =~= code);
    lemma_leading(line, just(' '), indentation as int);
    let rest = marks + behind;
    assert(line.skip(indentation as int) =~= rest);
    lemma_leading(rest, just(mark as char), count as int);
    assert(closes_fence(line, mark, minimum, opening));
}

/// Code whose last line holds anything but blanks and the marks of its fence stays as it is.
pub proof fn lemma_code_is_kept(code: Seq<char>, mark: u8, minimum: nat, opening: nat, place: int)
    requires
        0 <= place < code.len(),
        mark == 96 || mark == 126,
        code[place] != ' ' && code[place] != '\t' && code[place] != mark as char,
        forall|i: int| place <= i < code.len() ==> #[trigger] code[i] != '\n',
    ensures
        without_closing_fence(code, mark, minimum, opening) == code,
{
    let start = code.len() - trailing(code, not_newline());
    lemma_trailing_reaches(code, place);
    let line = code.skip(start);
    let indentation = leading(line, just(' ')) as int;
    crate::markdown_text::lemma_leading_bounded(line, just(' '));
    let rest = line.skip(indentation);
    let length = leading(rest, just(mark as char)) as int;
    crate::markdown_text::lemma_leading_bounded(rest, just(mark as char));
    let at = place - start;
    assert(line[at] == code[place]);
    lemma_run_stops(line, just(' '), at);
    assert(rest[at - indentation] == code[place]);
    lemma_run_stops(rest, just(mark as char), at - indentation);
}

/// A run ends before what does not pass.
proof fn lemma_run_stops(text: Seq<char>, pass: spec_fn(char) -> bool, place: int)
    requires
        0 <= place < text.len(),
        !pass(text[place]),
    ensures
        leading(text, pass) <= place,
    decreases text.len(),
{
    if place > 0 && pass(text[0]) {
        assert(text.drop_first()[place - 1] == text[place]);
        lemma_run_stops(text.drop_first(), pass, place - 1);
    }
}

proof fn lemma_trailing_reaches(text: Seq<char>, place: int)
    requires
        0 <= place < text.len(),
        forall|i: int| place <= i < text.len() ==> #[trigger] text[i] != '\n',
    ensures
        0 <= text.len() - trailing(text, not_newline()) <= place,
    decreases text.len(),
{
    crate::markdown_text::lemma_trailing_bounded(text, not_newline());
    assert(text.last() != '\n');
    if place < text.len() - 1 {
        let rest = text.drop_last();
        assert forall|i: int| place <= i < rest.len() implies #[trigger] rest[i] != '\n' by {
            assert(rest[i] == text[i]);
        }
        lemma_trailing_reaches(rest, place);
    }
}

/// Indented code loses four columns on its first line, and on the others as many more as its
/// container is indented; what is indented farther keeps the rest.
pub proof fn lemma_dedented_line(
    first: bool,
    column: nat,
    line: Seq<char>,
    rest: Seq<char>,
)
    requires
        is_line(line),
    ensures
        ({
            let width = if first {
                4nat
            } else {
                4 + column
            };
            let text = repeated(' ', width) + line + seq!['\n'] + rest;
            dedented(text, first, column as int) == line + seq!['\n'] + dedented(rest, false, column as int)
        }),
{
    let width = if first {
        4nat
    } else {
        4 + column
    };
    let head = repeated(' ', width) + line;
    let text = head + seq!['\n'] + rest;
    assert(text =~= repeated(' ', width) + line + seq!['\n'] + rest);
    lemma_leading(text, not_newline(), head.len() as int);
    assert(line_length(text) == head.len() + 1);
    let whole = text.take(line_length(text));
    assert(whole =~= repeated(' ', width) + (line + seq!['\n']));
    lemma_blank_columns(width, line + seq!['\n'], 0);
    assert(whole.skip(width as int) =~= line + seq!['\n']);
    assert(text.skip(line_length(text)) =~= rest);
}

/// Blanks up to a column are so many characters of indentation.
proof fn lemma_blank_columns(width: nat, rest: Seq<char>, columns: int)
    ensures
        indentation_of(repeated(' ', width) + rest, columns, columns + width) == width,
    decreases width,
{
    let line = repeated(' ', width) + rest;
    if width > 0 {
        lemma_blank_columns((width - 1) as nat, rest, columns + 1);
        assert(line.drop_first() =~= repeated(' ', (width - 1) as nat) + rest);
    }
}

/// A tab that a line begins with is four columns of indentation.
pub proof fn lemma_tab_is_four_columns(rest: Seq<char>)
    ensures
        indentation_of(seq!['\t'] + rest, 0, 4) == 1,
{
    let line = seq!['\t'] + rest;
    assert(line.drop_first() =~= rest);
    assert(line[0] == '\t');
    assert(indentation_of(rest, 0 + 4 - 0int % 4, 4) == 0);
}

/// The number of a marker is the one that stands before its period or its parenthesis.
#[verifier::rlimit(40)]
pub proof fn lemma_marker_number(number: u64, end: char)
    requires
        end == '.' || end == ')',
    ensures
        marker_number(crate::text::decimal_text(number as nat) + seq![end]) == number,
        marker_number(crate::text::decimal_text(number as nat) + seq![end] + seq![' ']) == number,
{
    let digits = crate::text::decimal_text(number as nat);
    let short = digits + seq![end];
    let long = short + seq![' '];
    let white = crate::markdown_text::white_space();
    crate::numbers::lemma_digits_round_trip(number as nat);
    lemma_no_white(digits);
    lemma_trailing(short, white, 0);
    lemma_trailing(long, white, 1);
    assert(short.take(short.len() as int) =~= short);
    assert(long.take(long.len() - 1) =~= short);
    assert(short[0] == digits[0]);
    lemma_leading(short, white, 0);
    assert(short.skip(0) =~= short);
    assert(crate::markdown_text::trimmed(short) == short);
    assert(crate::markdown_text::trimmed(long) == short);
    assert(short[short.len() - 2] == digits.last());
    assert(crate::numbers::is_digit(digits.last()));
    lemma_trailing(short, crate::markdown_render::marker_end(), 1);
    assert(short.take(short.len() - 1) =~= digits);
    assert(crate::numbers::is_digit(digits[0]));
}

proof fn lemma_no_white(digits: Seq<char>)
    requires
        crate::numbers::all_digits(digits),
    ensures
        forall|i: int| 0 <= i < digits.len() ==> !crate::markdown_text::is_white(#[trigger] digits[i]),
{
    assert forall|i: int| 0 <= i < digits.len() implies !crate::markdown_text::is_white(#[trigger] digits[i]) by {
        assert(crate::numbers::is_digit(digits[i]));
    }
}

/// A node shows as markdown its text, or the texts of its anchor: the prompt and then the system
/// prompt of a session, a prompt, the prompt of a handoff, the output of a skill.
pub proof fn lemma_sources_of_a_node(content: NodeContent)
    ensures
        match content {
            NodeContent::Text { text } => markdown_sources(content) == seq![text@],
            NodeContent::Anchor { payload: AnchorPayload::Session { prompt, system_prompt } } => {
                &&& markdown_sources(content).len() == 2
                &&& markdown_sources(content)[0] == prompt@
                &&& markdown_sources(content)[1] == system_prompt@
            },
            NodeContent::Anchor { payload: AnchorPayload::Prompt { prompt } } => markdown_sources(content)
                == seq![prompt@],
            NodeContent::Anchor { payload: AnchorPayload::SkillInvocation { handoff_prompt } } => {
                &&& markdown_sources(content).len() == if handoff_prompt is Some { 1int } else { 0 }
                &&& handoff_prompt matches Some(prompt) ==> markdown_sources(content)[0] == prompt@
            },
            NodeContent::Anchor { payload: AnchorPayload::SkillResult { output } } => markdown_sources(
                content,
            ) == seq![output@],
            _ => markdown_sources(content).len() == 0,
        },
{
}

/// Every source that is not empty and can be parsed has a document, and every document is that of
/// such a source.
pub proof fn lemma_every_source_has_a_document(sources: Seq<Seq<char>>, document: DocumentView)
    ensures
        documents_of(sources).contains(document) <==> exists|i: int|
            0 <= i < sources.len() && (#[trigger] sources[i]).len() > 0 && document_of(sources[i])
                == Some(document),
    decreases sources.len(),
{
    if sources.len() > 0 {
        let rest = sources.drop_last();
        let last = sources.last();
        let before = documents_of(rest);
        lemma_every_source_has_a_document(rest, document);
        if last.len() > 0 && document_of(last) is Some && !rest.contains(last) {
            crate::sequences::lemma_push_members(before, document_of(last)->0, document);
        }
        if documents_of(sources).contains(document) {
            if before.contains(document) {
                let i = choose|i: int|
                    0 <= i < rest.len() && (#[trigger] rest[i]).len() > 0 && document_of(rest[i]) == Some(
                        document,
                    );
                assert(sources[i] == rest[i]);
            } else {
                assert(sources[sources.len() - 1] == last);
            }
        }
        if exists|i: int|
            0 <= i < sources.len() && (#[trigger] sources[i]).len() > 0 && document_of(sources[i])
                == Some(document) {
            let i = choose|i: int|
                0 <= i < sources.len() && (#[trigger] sources[i]).len() > 0 && document_of(sources[i])
                    == Some(document);
            if i < rest.len() {
                assert(rest[i] == sources[i]);
            } else if rest.contains(last) {
                let k = rest.index_of(last);
                assert(rest[k] == last);
            }
        }
    }
}

/// Inline code is shown by what stands between its backticks, where that is one line without
/// blanks at its ends.
pub proof fn lemma_shown_inline_code(
    source: Seq<char>,
    rows: Seq<RowView>,
    node: int,
    before: Seq<MarkdownView>,
    inner: Seq<char>,
    count: nat,
)
    requires
        rows[node].kind == "code_span"@,
        row_text(source, rows[node]) == repeated('`', count) + inner + repeated('`', count),
        inner.len() > 0,
        inner[0] != '`',
        inner[0] != ' ',
        is_line(inner),
    ensures
        inline_piece(source, rows, node, before) == before.push(MarkdownView::InlineCode { code: inner }),
{
    crate::markdown_laws::lemma_code_is_shown_as_code(source, rows, node, before);
    let shown = inline_piece(source, rows, node, before);
    lemma_span_between_backticks(inner, count);
    lemma_span_text(inner);
    crate::markdown_laws::lemma_inline_kinds_differ();
    assert(shown =~= before.push(MarkdownView::InlineCode { code: inner }));
}

/// A line of indented code is shown without its four columns of indentation.
pub proof fn lemma_shown_indented_code(
    source: Seq<char>,
    tree: SyntaxView,
    node: int,
    line: Seq<char>,
)
    requires
        tree.blocks[node].kind == "indented_code_block"@,
        row_text(source, tree.blocks[node]) == repeated(' ', 4) + line + seq!['\n'],
        is_line(line),
    ensures
        block_pieces(source, tree, node) == seq![
            MarkdownView::CodeBlock { language: None, code: line + seq!['\n'] },
        ],
{
    let text = row_text(source, tree.blocks[node]);
    let column = tree.blocks[node].column as nat;
    crate::markdown_laws::lemma_block_kinds_differ();
    lemma_dedented_line(true, column, line, Seq::empty());
    assert(repeated(' ', 4) + line + seq!['\n'] + Seq::<char>::empty() =~= text);
    assert(dedented(Seq::<char>::empty(), false, column as int) =~= Seq::<char>::empty());
    assert(line + seq!['\n'] + Seq::<char>::empty() =~= line + seq!['\n']);
}

/// A fenced code block shows the code that the parser marks, or that code without a last line that
/// closes the fence. Without code it is empty.
#[verifier::rlimit(40)]
pub proof fn lemma_shown_fenced_code(
    source: Seq<char>,
    tree: SyntaxView,
    node: int,
    content: usize,
)
    requires
        tree.blocks[node].kind == "fenced_code_block"@,
        children_of_kind(tree.blocks, node, "code_fence_content"@) == seq![content],
    ensures
        ({
            let code = row_text(source, tree.blocks[content as int]);
            let shown = block_pieces(source, tree, node)[0];
            &&& shown is CodeBlock
            &&& shown->CodeBlock_code.is_prefix_of(code)
            &&& is_line(code.skip(shown->CodeBlock_code.len() as int))
            &&& shown->CodeBlock_code != code ==> shown->CodeBlock_code.len() == 0
                || shown->CodeBlock_code.last() == '\n'
        }),
{
    crate::markdown_laws::lemma_block_kinds_differ();
    let code = row_text(source, tree.blocks[content as int]);
    let shown = block_pieces(source, tree, node)[0];
    let contents = children_of_kind(tree.blocks, node, "code_fence_content"@);
    assert(contents.last() == content);
    let start = code.len() - trailing(code, not_newline());
    crate::markdown_laws::lemma_trailing_run(code, not_newline());
    let kept = shown->CodeBlock_code;
    assert(kept == code || kept == code.take(start));
    assert(code.take(kept.len() as int) =~= kept);
    if kept == code {
        assert(code.skip(kept.len() as int) =~= Seq::<char>::empty());
    } else {
        assert forall|i: int| 0 <= i < code.skip(start).len() implies #[trigger] code.skip(start)[i]
            != '\n' by {
            assert(not_newline()(code[start + i]));
        }
        if start > 0 {
            assert(!not_newline()(code[start - 1]));
        }
    }
}

/// The language of a fenced code block is the first word of its info string, without white space
/// at its ends; a block without an info string has none.
pub proof fn lemma_shown_language(source: Seq<char>, tree: SyntaxView, node: int)
    requires
        tree.blocks[node].kind == "fenced_code_block"@,
    ensures
        ({
            let rows = tree.blocks;
            let infos = children_of_kind(rows, node, "info_string"@);
            let shown = block_pieces(source, tree, node)[0];
            &&& infos.len() == 0 ==> shown->language is None
            &&& infos.len() > 0 && named_children(rows, infos.last() as int).len() > 0 ==> {
                let word = row_text(
                    source,
                    rows[named_children(rows, infos.last() as int)[0] as int],
                );
                &&& shown->language is Some <==> exists|i: int|
                    0 <= i < word.len() && !crate::markdown_text::is_white(#[trigger] word[i])
                &&& shown->language matches Some(language) ==> exists|from: int, to: int|
                    0 <= from < to <= word.len() && language == #[trigger] word.subrange(from, to)
                        && !crate::markdown_text::is_white(word[from])
                        && !crate::markdown_text::is_white(word[to - 1])
            }
        }),
{
    crate::markdown_laws::lemma_block_kinds_differ();
    let rows = tree.blocks;
    let infos = children_of_kind(rows, node, "info_string"@);
    if infos.len() > 0 && named_children(rows, infos.last() as int).len() > 0 {
        let word = row_text(source, rows[named_children(rows, infos.last() as int)[0] as int]);
        lemma_trimmed(word);
    }
}

/// A trimmed text is the text between its first and its last character that is no white space.
pub proof fn lemma_trimmed(text: Seq<char>)
    ensures
        ({
            let rest = crate::markdown_text::trimmed(text);
            &&& rest.len() > 0 <==> exists|i: int|
                0 <= i < text.len() && !crate::markdown_text::is_white(#[trigger] text[i])
            &&& rest.len() > 0 ==> exists|from: int, to: int|
                0 <= from < to <= text.len() && rest == #[trigger] text.subrange(from, to)
                    && !crate::markdown_text::is_white(text[from])
                    && !crate::markdown_text::is_white(text[to - 1])
        }),
{
    let white = crate::markdown_text::white_space();
    let to = text.len() - trailing(text, white);
    crate::markdown_laws::lemma_trailing_run(text, white);
    let front = crate::markdown_text::trimmed_end(text);
    assert(front =~= text.take(to));
    let from = leading(front, white) as int;
    crate::markdown_laws::lemma_leading_run(front, white);
    let rest = crate::markdown_text::trimmed(text);
    assert(rest =~= text.subrange(from, to));
    if rest.len() > 0 {
        assert(front[from] == text[from]);
        assert(!white(text[from]));
        assert(!white(text[to - 1]));
    } else {
        assert forall|i: int| 0 <= i < text.len() implies crate::markdown_text::is_white(
            #[trigger] text[i],
        ) by {
            if i < to {
                assert(front[i] == text[i]);
                assert(white(front[i]));
            } else {
                assert(white(text[i]));
            }
        }
    }
}

/// A list is numbered exactly where its first item begins with a numbered marker, and starts with
/// the number of that marker.
pub proof fn lemma_shown_list_kind(
    source: Seq<char>,
    rows: Seq<RowView>,
    node: int,
    items: Seq<Seq<MarkdownView>>,
)
    requires
        named_children(rows, node).len() > 0,
        named_children(rows, named_children(rows, node)[0] as int).len() > 0,
    ensures
        ({
            let marker = rows[named_children(rows, named_children(rows, node)[0] as int)[0] as int];
            let list = list_piece(source, rows, node, items);
            let numbered = marker.kind == "list_marker_dot"@ || marker.kind
                == "list_marker_parenthesis"@;
            &&& list is OrderedList <==> numbered
            &&& list is UnorderedList <==> !numbered
            &&& list is OrderedList ==> list->start == marker_number(row_text(source, marker))
            &&& list is OrderedList ==> list->OrderedList_items == items
            &&& list is UnorderedList ==> list->UnorderedList_items == items
        }),
{
}

/// The first paragraph of a task begins with the text of the task marker and a blank; nothing else
/// of an item changes, and an item without a marker stays as it is.
pub proof fn lemma_task_marker(
    source: Seq<char>,
    rows: Seq<RowView>,
    node: int,
    blocks: Seq<MarkdownView>,
    marker: int,
)
    requires
        0 <= marker < named_children(rows, node).len(),
        is_task_marker(rows[named_children(rows, node)[marker] as int].kind),
        forall|i: int|
            0 <= i < marker ==> !is_task_marker(rows[#[trigger] named_children(rows, node)[i] as int].kind),
        blocks.len() > 0,
        blocks[0] is Paragraph,
    ensures
        ({
            let marked = with_task_marker(source, rows, node, blocks);
            let text = row_text(source, rows[named_children(rows, node)[marker] as int]);
            &&& marked.len() == blocks.len()
            &&& marked[0] is Paragraph
            &&& flat_text(marked[0]->Paragraph_children) == text + " "@ + flat_text(
                blocks[0]->Paragraph_children,
            )
            &&& forall|i: int| 0 < i < blocks.len() ==> #[trigger] marked[i] == blocks[i]
        }),
{
    let keep = |child: usize| is_task_marker(rows[child as int].kind);
    let named = named_children(rows, node);
    crate::markdown_laws::lemma_first_that_passes(named, keep, marker);
    let text = row_text(source, rows[named[marker] as int]) + " "@;
    crate::markdown_laws::lemma_text_before(blocks[0]->Paragraph_children, text);
}

/// A document keeps its source.
pub proof fn lemma_document_keeps_source(source: Seq<char>, tree: SyntaxView)
    ensures
        rendered_document(source, tree).source == source,
        document_of(source) matches Some(document) ==> document.source == source,
{
}

/// A tab behind fewer than four blanks reaches to the fourth column.
pub proof fn lemma_tab_behind_blanks(blanks: nat, rest: Seq<char>)
    requires
        blanks < 4,
    ensures
        indentation_of(repeated(' ', blanks) + seq!['\t'] + rest, 0, 4) == blanks + 1,
{
    lemma_tab_at(blanks, rest, 0);
}

proof fn lemma_tab_at(blanks: nat, rest: Seq<char>, column: int)
    requires
        0 <= column,
        column + blanks < 4,
    ensures
        indentation_of(repeated(' ', blanks) + seq!['\t'] + rest, column, 4) == blanks + 1,
    decreases blanks,
{
    let line = repeated(' ', blanks) + seq!['\t'] + rest;
    if blanks > 0 {
        lemma_tab_at((blanks - 1) as nat, rest, column + 1);
        assert(line.drop_first() =~= repeated(' ', (blanks - 1) as nat) + seq!['\t'] + rest);
        assert(line[0] == ' ');
    } else {
        assert(line[0] == '\t');
        assert(line.drop_first() =~= rest);
        assert(indentation_of(rest, column + 4 - column % 4, 4) == 0);
    }
}

/// The documents of a node come in the order of their sources.
pub proof fn lemma_documents_in_order(sources: Seq<Seq<char>>, a: int, b: int) -> (places: (int, int))
    requires
        0 <= a < b < documents_of(sources).len(),
    ensures
        0 <= places.0 < places.1 < sources.len(),
        document_of(sources[places.0]) == Some(documents_of(sources)[a]),
        document_of(sources[places.1]) == Some(documents_of(sources)[b]),
    decreases sources.len(),
{
    let rest = sources.drop_last();
    let before = documents_of(rest);
    if b < before.len() {
        lemma_documents_in_order(rest, a, b)
    } else {
        assert(before.contains(before[a]));
        lemma_every_source_has_a_document(rest, before[a]);
        let i = choose|i: int|
            0 <= i < rest.len() && (#[trigger] rest[i]).len() > 0 && document_of(rest[i]) == Some(before[a]);
        assert(sources[i] == rest[i]);
        (i, sources.len() - 1)
    }
}

/// Whether a syntax has a block and an entry for the inline content of each block, and its nodes
/// all mark pieces of the source.
pub open spec fn is_marked(source: Seq<char>, tree: SyntaxView) -> bool {
    &&& tree.blocks.len() > 0
    &&& tree.inlines.len() == tree.blocks.len()
    &&& forall|i: int| 0 <= i < tree.blocks.len() ==> marks_a_piece(source, #[trigger] tree.blocks[i])
    &&& forall|i: int|
        #![trigger tree.inlines[i]]
        0 <= i < tree.inlines.len() ==> (tree.inlines[i] matches Some(rows) ==> rows.len() > 0 && forall|k: int|
            0 <= k < rows.len() ==> marks_a_piece(source, #[trigger] rows[k]))
}

/// A source has a document exactly where the parser finds a syntax that marks the source.
pub proof fn lemma_document_exists(source: Seq<char>)
    ensures
        match crate::markdown_syntax::markdown_syntax(source) {
            None => document_of(source) is None,
            Some(tree) => document_of(source) is Some <==> is_marked(source, tree),
        },
{
    if let Some(tree) = crate::markdown_syntax::markdown_syntax(source) {
        lemma_fits_iff_marked(source, tree);
    }
}

proof fn lemma_fits_iff_marked(source: Seq<char>, tree: SyntaxView)
    ensures
        syntax_fits(source, tree) <==> is_marked(source, tree),
{
    lemma_rows_marked(source, tree.blocks);
    assert forall|i: int| 0 <= i < tree.inlines.len() implies ((#[trigger] tree.inlines[i]) matches Some(
        rows,
    ) ==> (rows_fit(source, rows) <==> forall|k: int|
        0 <= k < rows.len() ==> marks_a_piece(source, #[trigger] rows[k]))) by {
        if let Some(rows) = tree.inlines[i] {
            lemma_rows_marked(source, rows);
        }
    }
}

proof fn lemma_rows_marked(source: Seq<char>, rows: Seq<RowView>)
    ensures
        rows_fit(source, rows) <==> forall|k: int|
            0 <= k < rows.len() ==> marks_a_piece(source, #[trigger] rows[k]),
{
    if rows_fit(source, rows) {
        assert forall|k: int| 0 <= k < rows.len() implies marks_a_piece(source, #[trigger] rows[k]) by {
            assert(crate::markdown_syntax::row_fits(source, rows[k]));
        }
    }
    if forall|k: int| 0 <= k < rows.len() ==> marks_a_piece(source, #[trigger] rows[k]) {
        assert forall|k: int| 0 <= k < rows.len() implies crate::markdown_syntax::row_fits(
            source,
            #[trigger] rows[k],
        ) by {
            assert(marks_a_piece(source, rows[k]));
        }
    }
}

/// Whether a node marks a piece of the source between two characters, at a column that can be
/// counted on from.
pub open spec fn marks_a_piece(source: Seq<char>, row: RowView) -> bool {
    let bytes = vstd::utf8::encode_utf8(source);
    &&& row.start <= row.end <= bytes.len()
    &&& vstd::utf8::is_char_boundary(bytes, row.start as int)
    &&& vstd::utf8::is_char_boundary(bytes, row.end as int)
    &&& row.column + 4 <= usize::MAX
    &&& row.column + row.end - row.start <= usize::MAX
}

} // verus!

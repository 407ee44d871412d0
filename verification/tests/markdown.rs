use coco_console::markdown::markdown_document;
use coco_console::markdown::node_markdown_documents;
use coco_console::markdown::normalize_code_span;
use coco_console::markdown::strip_leaked_closing_fence;
use coco_console::markdown::text_node;
use coco_console::markdown_model::AnchorPayload;
use coco_console::markdown_model::MarkdownDocument;
use coco_console::markdown_model::MarkdownNode;
use coco_console::markdown_model::NodeContent;

fn parse(source: &str) -> MarkdownDocument {
    markdown_document(source).unwrap()
}

#[test]
fn tree_sitter_builds_simple_markdown_document() {
    let document = parse(
        "# Heading *one*\n\nParagraph with **bold**, `code`, and [link](https://example.com).\n\n- first\n- second\n\n```rust\nfn main() {}\n```\n",
    );

    assert!(matches!(
        &document.blocks[0],
        MarkdownNode::Heading { level: 1, .. }
    ));
    assert!(matches!(
        &document.blocks[1],
        MarkdownNode::Paragraph { children }
            if children.iter().any(|child| matches!(child, MarkdownNode::Strong { .. }))
                && children.iter().any(|child| matches!(child, MarkdownNode::InlineCode { code } if code == "code"))
                && children.iter().any(|child| matches!(child, MarkdownNode::Link { destination, .. } if destination == "https://example.com"))
    ));
    assert!(matches!(
        &document.blocks[2],
        MarkdownNode::UnorderedList { items }
            if items == &vec![
                vec![MarkdownNode::Paragraph {
                    children: vec![text_node("first")],
                }],
                vec![MarkdownNode::Paragraph {
                    children: vec![text_node("second")],
                }],
            ]
    ));
    assert!(matches!(
        &document.blocks[3],
        MarkdownNode::CodeBlock { language: Some(language), code }
            if language == "rust" && code == "fn main() {}\n"
    ));
}

#[test]
fn markdown_text_round_trips_without_delimiters() {
    let document = parse("plain *emphasis* and **strong**");
    assert_eq!(
        document.blocks,
        vec![MarkdownNode::Paragraph {
            children: vec![
                text_node("plain "),
                MarkdownNode::Emphasis {
                    children: vec![text_node("emphasis")],
                },
                text_node(" and "),
                MarkdownNode::Strong {
                    children: vec![text_node("strong")],
                },
            ],
        }]
    );
}

#[test]
fn tree_sitter_handles_supported_block_and_inline_variants() {
    let document = parse(
        "Setext heading\n--------------\n\n1. ordered\n2. list\n\n> quote\n\n    indented code\n\n***\n\n~~gone~~ <https://example.com> <user@example.com> ![alt](image.png)  \nnext \\* literal\n",
    );
    let rendered = format!("{:?}", document.blocks);

    assert!(matches!(
        &document.blocks[0],
        MarkdownNode::Heading { level: 2, .. }
    ));
    assert!(matches!(
        &document.blocks[1],
        MarkdownNode::OrderedList { start: 1, items } if items.len() == 2
    ));
    assert!(matches!(
        &document.blocks[2],
        MarkdownNode::BlockQuote { .. }
    ));
    assert!(matches!(
        &document.blocks[3],
        MarkdownNode::CodeBlock { language: None, .. }
    ));
    assert!(rendered.contains("indented code"));
    assert!(matches!(&document.blocks[4], MarkdownNode::ThematicBreak));
    for expected in [
        "Strikethrough",
        "https://example.com",
        "mailto:user@example.com",
        "LineBreak",
        "alt",
        "* literal",
    ] {
        assert!(rendered.contains(expected), "{rendered}");
    }
}

#[test]
fn tool_results_remain_preformatted_text() {
    assert!(node_markdown_documents(&NodeContent::ToolResult).is_empty());
}

#[test]
fn code_spans_follow_commonmark_space_normalization() {
    assert_eq!(normalize_code_span("  code  "), " code ");
    assert_eq!(normalize_code_span("   "), "   ");
    assert_eq!(normalize_code_span("code\nspan"), "code span");
    assert_eq!(normalize_code_span(" code "), "code");
}

#[test]
fn character_references_are_decoded_as_text() {
    let document = parse("A &amp; B &#35; C &#x1F600;");

    assert_eq!(
        document.blocks,
        vec![MarkdownNode::Paragraph {
            children: vec![text_node("A & B # C 😀")],
        }]
    );
}

#[test]
fn unsupported_tables_remain_preformatted() {
    let source = "| A | B |\n| - | - |\n| 1 | 2 |\n";
    let document = parse(source);

    assert_eq!(
        document.blocks,
        vec![MarkdownNode::CodeBlock {
            language: None,
            code: source.to_owned(),
        }]
    );
}

#[test]
fn fenced_code_preserves_trailing_blank_lines() {
    let document = parse("```\nline\n\n```\n");

    assert_eq!(
        document.blocks,
        vec![MarkdownNode::CodeBlock {
            language: None,
            code: "line\n\n".to_owned(),
        }]
    );
}

#[test]
fn fenced_code_at_eof_excludes_its_closing_fence() {
    for (source, expected) in [
        ("```bash\ncommand\n```", "command\n"),
        ("~~~text\ncontent\n~~~", "content\n"),
    ] {
        let document = parse(source);
        assert!(
            matches!(
                document.blocks.as_slice(),
                [MarkdownNode::CodeBlock { code, .. }] if code == expected
            ),
            "{:#?}",
            document.blocks
        );
    }
}

#[test]
fn nested_fenced_code_at_eof_excludes_its_closing_fence() {
    let document = parse("10. item\n\n    ```text\n    content\n    ```");

    assert!(
        matches!(
            &document.blocks[0],
            MarkdownNode::OrderedList { items, .. }
                if items[0].contains(&MarkdownNode::CodeBlock {
                    language: Some("text".to_owned()),
                    code: "content\n".to_owned(),
                })
        ),
        "{:#?}",
        document.blocks
    );
}

#[test]
fn longer_fence_preserves_shorter_fence_in_code() {
    let document = parse("````markdown\n```\n````");

    assert_eq!(
        document.blocks,
        vec![MarkdownNode::CodeBlock {
            language: Some("markdown".to_owned()),
            code: "```\n".to_owned(),
        }]
    );
}

#[test]
fn nested_indented_code_removes_container_indentation() {
    let document = parse("- item\n\n      first\n        second\n");

    assert!(
        matches!(
            &document.blocks[0],
            MarkdownNode::UnorderedList { items }
                if items[0].contains(&MarkdownNode::CodeBlock {
                    language: None,
                    code: "first\n  second\n".to_owned(),
                })
        ),
        "{:#?}",
        document.blocks
    );
}

#[test]
fn indented_code_preserves_content_indentation_and_line_endings() {
    let document = parse("      first\n    second\n");

    assert_eq!(
        document.blocks,
        vec![MarkdownNode::CodeBlock {
            language: None,
            code: "  first\nsecond\n".to_owned(),
        }]
    );
}

#[test]
fn multiline_html_remains_preformatted() {
    let source = "<pre>\nfirst\nsecond\n</pre>\n";
    let document = parse(source);

    assert_eq!(
        document.blocks,
        vec![MarkdownNode::CodeBlock {
            language: None,
            code: source.to_owned(),
        }]
    );
}

#[test]
fn task_list_markers_remain_literal_text() {
    let document = parse("- [x] deployed\n- [ ] pending\n");

    assert_eq!(
        document.blocks,
        vec![MarkdownNode::UnorderedList {
            items: vec![
                vec![MarkdownNode::Paragraph {
                    children: vec![text_node("[x] deployed")],
                }],
                vec![MarkdownNode::Paragraph {
                    children: vec![text_node("[ ] pending")],
                }],
            ],
        }]
    );
}

#[test]
fn tab_prefixed_indented_code_removes_four_columns() {
    let document = parse("\tcommand\n");

    assert_eq!(
        document.blocks,
        vec![MarkdownNode::CodeBlock {
            language: None,
            code: "command\n".to_owned(),
        }]
    );
}

#[test]
fn sessions_show_each_prompt_once() {
    let same = NodeContent::Anchor {
        payload: AnchorPayload::Session {
            prompt: "text".to_owned(),
            system_prompt: "text".to_owned(),
        },
    };
    assert_eq!(node_markdown_documents(&same).len(), 1);
    let different = NodeContent::Anchor {
        payload: AnchorPayload::Session {
            prompt: String::new(),
            system_prompt: "rules".to_owned(),
        },
    };
    let documents = node_markdown_documents(&different);
    assert_eq!(documents.len(), 1);
    assert_eq!(documents[0].source, "rules");
    let skill = NodeContent::Anchor {
        payload: AnchorPayload::SkillInvocation {
            handoff_prompt: None,
        },
    };
    assert!(node_markdown_documents(&skill).is_empty());
}

#[test]
fn ordered_lists_keep_their_first_number() {
    let document = parse("7) seven\n8) eight\n");
    assert!(
        matches!(
            &document.blocks[0],
            MarkdownNode::OrderedList { start: 7, items } if items.len() == 2
        ),
        "{:#?}",
        document.blocks
    );
}

#[test]
fn texts_beyond_ascii_are_cut_at_character_boundaries() {
    let document = parse("grüße *süß* `ö`");
    assert_eq!(
        document.blocks,
        vec![MarkdownNode::Paragraph {
            children: vec![
                text_node("grüße "),
                MarkdownNode::Emphasis {
                    children: vec![text_node("süß")],
                },
                text_node(" "),
                MarkdownNode::InlineCode {
                    code: "ö".to_owned(),
                },
            ],
        }]
    );
}

#[test]
fn leaked_fence_needs_its_marker() {
    let strip = |code: &str, marker: u8, minimum_length: usize| {
        let mut code = code.to_owned();
        strip_leaked_closing_fence(&mut code, marker, minimum_length, 0);
        code
    };
    assert_eq!(strip("code\n```", b'`', 3), "code\n");
    assert_eq!(strip("code\n``` \t", b'`', 3), "code\n");
    assert_eq!(strip("code\n~~~", b'`', 3), "code\n~~~");
    assert_eq!(strip("code\nÃÃÃ", 0xc3, 1), "code\nÃÃÃ");
    assert_eq!(strip("code\n  ", 0xc3, 0), "code\n");
}

#[test]
fn language_is_trimmed_of_white_space() {
    let document = parse("```\u{3000}rust\u{a0}\ncode\n```\n");
    assert!(
        matches!(
            &document.blocks[0],
            MarkdownNode::CodeBlock { language: Some(language), .. } if language == "rust"
        ),
        "{:#?}",
        document.blocks
    );
}

#[test]
fn white_space_is_the_unicode_property() {
    for c in '\0'..=char::MAX {
        let code = c as u32;
        let listed = (0x9..=0xd).contains(&code)
            || (0x2000..=0x200a).contains(&code)
            || [0x20, 0x85, 0xa0, 0x1680, 0x2028, 0x2029, 0x202f, 0x205f, 0x3000].contains(&code);
        assert_eq!(c.is_whitespace(), listed);
    }
}

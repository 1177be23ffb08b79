use simple_markdown_parser::{
    CommandBlock, MarkdownElement, MarkdownTextElement, ParseDiagnostic, ParseOptions,
    RawMarkdown, RawText,
};

#[test]
fn heading_and_code_block() {
    let source = "# Hello world\n\n## Under heading\n\n```ts\nthis is some code\n```\n";
    let output = simple_markdown_parser::parse(source);
    assert_eq!(
        output.elements,
        vec![
            MarkdownElement::Heading {
                level: 1,
                text: RawText("Hello world"),
            },
            MarkdownElement::Heading {
                level: 2,
                text: RawText("Under heading"),
            },
            MarkdownElement::CodeBlock {
                language: "ts",
                code: "this is some code\n",
            },
        ]
    );
    assert!(output.diagnostics.is_empty());
}

#[test]
fn two_list_items() {
    let source = "- List item 1\n- List item 2\n";
    let output = simple_markdown_parser::parse(source);
    assert_eq!(
        output.elements,
        vec![
            MarkdownElement::ListItem {
                level: 1,
                text: RawText("List item 1"),
            },
            MarkdownElement::ListItem {
                level: 1,
                text: RawText("List item 2"),
            },
        ]
    );
}

#[test]
fn inline_code_tokenizes() {
    let text = RawText("The `parse` API");
    assert_eq!(
        text.parts().remaining_parts(),
        vec![
            MarkdownTextElement::Plain("The "),
            MarkdownTextElement::Code("parse"),
            MarkdownTextElement::Plain(" API"),
        ]
    );
}

#[test]
fn link_tokenizes() {
    let text = RawText("[markdown](https://example.org/)");
    assert_eq!(
        text.parts().remaining_parts(),
        vec![MarkdownTextElement::Link {
            on: RawText("markdown"),
            to: "https://example.org/",
        }]
    );
}

#[test]
fn command_block_with_arguments() {
    let source = "{% cmd a=1 b=\"two words\" %}\ninner\n{% /cmd %}\n";
    let output = simple_markdown_parser::parse(source);
    assert_eq!(
        output.elements,
        vec![MarkdownElement::CommandBlock(CommandBlock {
            name: "cmd",
            arguments: "a=1 b=\"two words\"",
            inner: RawMarkdown("inner\n"),
        })]
    );
    assert!(output.diagnostics.is_empty());
    if let MarkdownElement::CommandBlock(command) = &output.elements[0] {
        let (pairs, dangling) = command.arguments();
        assert_eq!(pairs, vec![("a", "1"), ("b", "two words")]);
        assert!(!dangling);
    } else {
        unreachable!();
    }
}

#[test]
fn empty_lines_suppressed_by_default() {
    let source = "a\n\nb\n";
    let output = simple_markdown_parser::parse(source);
    assert_eq!(
        output.elements,
        vec![
            MarkdownElement::Paragraph(RawText("a")),
            MarkdownElement::Paragraph(RawText("b")),
        ]
    );
}

#[test]
fn empty_lines_kept_on_request() {
    let source = "a\n\nb\n";
    let options = ParseOptions {
        include_new_lines: true,
    };
    let output = simple_markdown_parser::parse_with_options(source, &options);
    assert_eq!(
        output.elements,
        vec![
            MarkdownElement::Paragraph(RawText("a")),
            MarkdownElement::Empty,
            MarkdownElement::Paragraph(RawText("b")),
            MarkdownElement::Empty,
        ]
    );
}

#[test]
fn frontmatter_only_at_document_start() {
    let source = "---\ntitle: greeting\n---\nBody\n";
    let output = simple_markdown_parser::parse(source);
    assert_eq!(
        output.elements,
        vec![
            MarkdownElement::Frontmatter("title: greeting\n"),
            MarkdownElement::Paragraph(RawText("Body")),
        ]
    );
    assert!(output.diagnostics.is_empty());
}

#[test]
fn table_region_captured() {
    let source = "|a|b|\n|-|-|\n|1|2|\nEnd\n";
    let output = simple_markdown_parser::parse(source);
    assert_eq!(
        output.elements,
        vec![
            MarkdownElement::Table(simple_markdown_parser::Table("|a|b|\n|-|-|\n|1|2|\n")),
            MarkdownElement::Paragraph(RawText("End")),
        ]
    );
}

#[test]
fn table_rows_and_cells() {
    let table = simple_markdown_parser::Table("|a|b|\n|-|-|\n|1|2|\n");
    let rows = table.rows().unwrap();
    assert_eq!(rows.len(), 2);
    assert_eq!(rows[0].cells(), vec![RawText("a"), RawText("b")]);
    assert_eq!(rows[1].cells(), vec![RawText("1"), RawText("2")]);
}

#[test]
fn empty_table_region_reported() {
    let table = simple_markdown_parser::Table("");
    assert_eq!(table.rows(), Err(ParseDiagnostic::EmptyTableRegion));
}

#[test]
fn unterminated_blocks_reported() {
    let output = simple_markdown_parser::parse("```rust\nlet x = 1;\n");
    assert_eq!(output.elements, vec![]);
    assert_eq!(
        output.diagnostics,
        vec![ParseDiagnostic::UnterminatedCodeBlock]
    );

    let output = simple_markdown_parser::parse("$$\nx^2\n");
    assert_eq!(
        output.diagnostics,
        vec![ParseDiagnostic::UnterminatedLatexBlock]
    );

    let output = simple_markdown_parser::parse("{% note %}\nnever closed\n");
    assert_eq!(
        output.diagnostics,
        vec![ParseDiagnostic::UnterminatedCommandBlock]
    );

    let output = simple_markdown_parser::parse("%% open\nstill open\n");
    assert_eq!(
        output.diagnostics,
        vec![ParseDiagnostic::UnterminatedComment]
    );

    let output = simple_markdown_parser::parse("---\nnever closed\n");
    assert_eq!(
        output.diagnostics,
        vec![ParseDiagnostic::UnterminatedFrontmatter]
    );
}

#[test]
fn deep_levels_reported() {
    let mut heading = String::new();
    for _ in 0..300 {
        heading.push('#');
    }
    heading.push_str(" deep\n");
    let output = simple_markdown_parser::parse(&heading);
    assert_eq!(output.elements, vec![]);
    assert_eq!(output.diagnostics, vec![ParseDiagnostic::DeepHeadingLevel]);

    let mut item = String::from("-");
    for _ in 0..300 {
        item.push(' ');
    }
    item.push_str("deep\n");
    let output = simple_markdown_parser::parse(&item);
    assert_eq!(output.elements, vec![]);
    assert_eq!(output.diagnostics, vec![ParseDiagnostic::DeepListLevel]);
}

#[test]
fn dangling_quote_reported() {
    let command = CommandBlock {
        name: "cmd",
        arguments: "a=\"open",
        inner: RawMarkdown(""),
    };
    let (pairs, dangling) = command.arguments();
    assert_eq!(pairs, vec![("a", "\"open")]);
    assert!(dangling);
}

#[test]
fn header_chain_pads_skipped_levels() {
    let source = "# A\n### B\nunder\n";
    let (output, _) = simple_markdown_parser::utilities::parse_with_header_information(source);
    assert_eq!(
        output,
        vec![
            (
                vec![],
                MarkdownElement::Heading {
                    level: 1,
                    text: RawText("A"),
                },
            ),
            (
                vec![RawText("A"), RawText("")],
                MarkdownElement::Heading {
                    level: 3,
                    text: RawText("B"),
                },
            ),
            (
                vec![RawText("A"), RawText(""), RawText("B")],
                MarkdownElement::Paragraph(RawText("under")),
            ),
        ]
    );
}

#[test]
fn parsing_is_deterministic() {
    let source = "# A\n\n|x|\n|-|\nend `code` **b**\n";
    let first = simple_markdown_parser::parse(source);
    let second = simple_markdown_parser::parse(source);
    assert_eq!(first.elements, second.elements);
    assert_eq!(first.diagnostics, second.diagnostics);
    assert!(first.is_clean());
}

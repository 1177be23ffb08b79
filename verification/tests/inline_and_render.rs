use simple_markdown_parser::{MarkdownElement, MarkdownTextElement, RawText};

#[test]
fn bold_italic_and_emoji() {
    let text = RawText("a **b** _c_ :smile: d");
    assert_eq!(
        text.parts().remaining_parts(),
        vec![
            MarkdownTextElement::Plain("a "),
            MarkdownTextElement::Bold("b"),
            MarkdownTextElement::Plain(" "),
            MarkdownTextElement::Italic("c"),
            MarkdownTextElement::Plain(" "),
            MarkdownTextElement::Emoji("smile"),
            MarkdownTextElement::Plain(" d"),
        ]
    );
}

#[test]
fn media_and_expression() {
    let text = RawText("![alt](src) and {x + y}!");
    assert_eq!(
        text.parts().remaining_parts(),
        vec![
            MarkdownTextElement::Media {
                alt: "alt",
                source: "src",
            },
            MarkdownTextElement::Plain(" and "),
            MarkdownTextElement::Expression("x + y"),
            MarkdownTextElement::Plain("!"),
        ]
    );
}

#[test]
fn chevron_autolink() {
    let text = RawText("see <https+example> end");
    assert_eq!(
        text.parts().remaining_parts(),
        vec![
            MarkdownTextElement::Plain("see "),
            MarkdownTextElement::Link {
                on: RawText("https+example"),
                to: "https+example",
            },
            MarkdownTextElement::Plain(" end"),
        ]
    );
}

#[test]
fn bare_link_without_target() {
    let text = RawText("[label] rest");
    assert_eq!(
        text.parts().remaining_parts(),
        vec![
            MarkdownTextElement::Link {
                on: RawText("label"),
                to: "",
            },
            MarkdownTextElement::Plain(" rest"),
        ]
    );
}

#[test]
fn nested_brackets_in_link_label() {
    let text = RawText("[a [b] c](t)");
    assert_eq!(
        text.parts().remaining_parts(),
        vec![MarkdownTextElement::Link {
            on: RawText("a [b] c"),
            to: "t",
        }]
    );
}

#[test]
fn tag_run() {
    let text = RawText("#tag rest");
    assert_eq!(
        text.parts().remaining_parts(),
        vec![
            MarkdownTextElement::Tag("tag"),
            MarkdownTextElement::Plain("rest"),
        ]
    );
}

#[test]
fn unterminated_decoration_degrades_to_plain() {
    let text = RawText("a `never closed");
    assert_eq!(
        text.parts().remaining_parts(),
        vec![
            MarkdownTextElement::Plain("a "),
            MarkdownTextElement::Plain("never closed"),
        ]
    );
}

#[test]
fn no_decoration_strips_markers() {
    assert_eq!(
        RawText("The `parse` API is **bold**").no_decoration(),
        "The parse API is bold"
    );
    assert_eq!(RawText("[label](target)").no_decoration(), "");
}

#[test]
fn text_element_no_decoration() {
    assert_eq!(MarkdownTextElement::Code("x").no_decoration(), "x");
    assert_eq!(
        MarkdownTextElement::Link {
            on: RawText("x"),
            to: "y"
        }
        .no_decoration(),
        ""
    );
}

#[test]
fn as_markdown_renderings() {
    assert_eq!(
        MarkdownElement::Heading {
            level: 1,
            text: RawText("Hello world"),
        }
        .as_markdown(),
        "#Hello world "
    );
    assert_eq!(
        MarkdownElement::ListItem {
            level: 1,
            text: RawText("item"),
        }
        .as_markdown(),
        "\t- item"
    );
    assert_eq!(
        MarkdownElement::CodeBlock {
            language: "ts",
            code: "let x;\n",
        }
        .as_markdown(),
        "```ts\nlet x;\n```"
    );
    assert_eq!(
        MarkdownElement::Paragraph(RawText("plain")).as_markdown(),
        "plain"
    );
    assert_eq!(MarkdownElement::Empty.as_markdown(), "");
    assert_eq!(MarkdownElement::HorizontalRule.as_markdown(), "---");
}

#[test]
fn as_markdown_round_trips_to_same_variant() {
    let elements = vec![
        MarkdownElement::Heading {
            level: 2,
            text: RawText("title"),
        },
        MarkdownElement::ListItem {
            level: 1,
            text: RawText("item"),
        },
        MarkdownElement::Paragraph(RawText("plain text")),
        MarkdownElement::Quote(simple_markdown_parser::RawMarkdown("quoted")),
        MarkdownElement::CodeBlock {
            language: "rs",
            code: "let x;\n",
        },
    ];
    for element in elements {
        let rendered = element.as_markdown();
        let output = simple_markdown_parser::parse(&rendered);
        assert_eq!(output.elements.len(), 1, "{rendered:?}");
        assert_eq!(
            output.elements[0].debug_without_text(),
            element.debug_without_text(),
            "{rendered:?}"
        );
    }
}

#[test]
fn debug_without_text_labels() {
    assert_eq!(
        MarkdownElement::Heading {
            level: 3,
            text: RawText("x"),
        }
        .debug_without_text(),
        "Heading { level: 3 }"
    );
    assert_eq!(
        MarkdownElement::ListItem {
            level: 12,
            text: RawText("x"),
        }
        .debug_without_text(),
        "ListItem { level: 12 }"
    );
    assert_eq!(
        MarkdownElement::CodeBlock {
            language: "ts",
            code: "",
        }
        .debug_without_text(),
        "CodeBlock (ts)"
    );
    assert_eq!(MarkdownElement::Empty.debug_without_text(), "Empty");
}

#[test]
fn classifier_rules_in_order() {
    let heading = simple_markdown_parser::decide("  ## Title  ").unwrap();
    assert_eq!(
        heading,
        MarkdownElement::Heading {
            level: 2,
            text: RawText("Title"),
        }
    );
    assert_eq!(
        simple_markdown_parser::decide("> quoted").unwrap(),
        MarkdownElement::Quote(simple_markdown_parser::RawMarkdown(" quoted"))
    );
    assert_eq!(
        simple_markdown_parser::decide("---").unwrap(),
        MarkdownElement::HorizontalRule
    );
    assert_eq!(
        simple_markdown_parser::decide("- item").unwrap(),
        MarkdownElement::ListItem {
            level: 1,
            text: RawText("item"),
        }
    );
    assert_eq!(
        simple_markdown_parser::decide("").unwrap(),
        MarkdownElement::Empty
    );
    assert_eq!(
        simple_markdown_parser::decide("words").unwrap(),
        MarkdownElement::Paragraph(RawText("words"))
    );
}

#[test]
fn strip_surrounds_trims_and_strips() {
    assert_eq!(
        simple_markdown_parser::strip_surrounds("  {% cmd a=1 %}  ", "{%", "%}"),
        Some("cmd a=1")
    );
    assert_eq!(
        simple_markdown_parser::strip_surrounds("{% cmd", "{%", "%}"),
        None
    );
    assert_eq!(
        simple_markdown_parser::strip_surrounds("cmd %}", "{%", "%}"),
        None
    );
}

#[test]
fn element_getters() {
    let paragraph = MarkdownElement::Paragraph(RawText("body"));
    assert_eq!(paragraph.inner_paragraph_raw(), Some("body"));
    assert_eq!(paragraph.parts_like(), Some(RawText("body")));
    let rule = MarkdownElement::HorizontalRule;
    assert_eq!(rule.inner_paragraph_raw(), None);
    assert_eq!(rule.parts_like(), None);
    let quote = MarkdownElement::Quote(simple_markdown_parser::RawMarkdown(" q"));
    assert_eq!(quote.inner_paragraph_raw(), Some(" q"));
    assert_eq!(quote.parts_like(), Some(RawText(" q")));
}

#[test]
fn no_modifiers_descends_into_link_labels() {
    let text = RawText("The [pick `up`](x) end");
    assert_eq!(text.no_modifiers(), "The pick up end");
    assert_eq!(text.no_decoration(), "The  end");
}

use simple_markdown_parser::{MarkdownElement, MarkdownTextElement, RawText};

#[test]
fn items_scan() {
    let source: &str = r#"
# The `parse` API

The `parse` API takes a callback that is called on each [markdown](https://www.markdownguide.org/) item. The inner text decoration is **skipped** on the first pass but can be *picked up* later using `RawText::parts`, which returns a `PartsIterator` to get the individual sections.
"#;

    let output = simple_markdown_parser::parse(source);
    for item in output.elements {
        match item {
            MarkdownElement::Heading { level: 1, text } => {
                assert_eq!(
                    text.parts().remaining_parts(),
                    vec![
                        MarkdownTextElement::Plain("The "),
                        MarkdownTextElement::Code("parse"),
                        MarkdownTextElement::Plain(" API"),
                    ]
                );
            }
            MarkdownElement::Paragraph(text) => {
                assert_eq!(
                    text.parts().remaining_parts(),
                    vec![
                        MarkdownTextElement::Plain("The "),
                        MarkdownTextElement::Code("parse"),
                        MarkdownTextElement::Plain(" API takes a callback that is called on each "),
                        MarkdownTextElement::Link {
                            on: RawText("markdown"),
                            to: "https://www.markdownguide.org/"
                        },
                        MarkdownTextElement::Plain(" item. The inner text decoration is "),
                        MarkdownTextElement::Bold("skipped"),
                        MarkdownTextElement::Plain(" on the first pass but can be "),
                        MarkdownTextElement::Italic("picked up"),
                        MarkdownTextElement::Plain(" later using "),
                        MarkdownTextElement::Code("RawText::parts"),
                        MarkdownTextElement::Plain(", which returns a "),
                        MarkdownTextElement::Code("PartsIterator"),
                        MarkdownTextElement::Plain(" to get the individual sections.")
                    ]
                );
            }
            item => panic!("not expecting {item:?}"),
        }
    }
}

use simple_markdown_parser::{LexicalEvent, MarkdownElement, RawText};

#[test]
fn parse_blocks_groups_by_heading() {
    let source = "intro\n# A\none\ntwo\n# B\nthree\n";
    let (groups, diagnostics) = simple_markdown_parser::parse_blocks(source);
    assert_eq!(
        groups,
        vec![
            (vec![], vec![MarkdownElement::Paragraph(RawText("intro"))]),
            (
                vec![RawText("A")],
                vec![
                    MarkdownElement::Paragraph(RawText("one")),
                    MarkdownElement::Paragraph(RawText("two")),
                ],
            ),
            (
                vec![RawText("B")],
                vec![MarkdownElement::Paragraph(RawText("three"))],
            ),
        ]
    );
    assert!(diagnostics.is_empty());
}

#[test]
fn extract_code_blocks_stamps_location() {
    let source = "# Setup\nRun this:\n```sh\nmake\n```\n- fast\n# Next\nplain\n";
    let blocks = simple_markdown_parser::extract_code_blocks(source);
    assert_eq!(blocks.len(), 1);
    assert_eq!(blocks[0].location, vec!["Setup".to_string()]);
    assert_eq!(blocks[0].language, "sh");
    assert_eq!(blocks[0].code, "make\n");
    assert_eq!(blocks[0].information, "Run this:");
    assert_eq!(blocks[0].items, vec!["fast".to_string()]);
}

#[test]
fn extract_code_blocks_keeps_trailing_block() {
    let source = "# Only\n```rs\nlet x;\n```\n";
    let blocks = simple_markdown_parser::extract_code_blocks(source);
    assert_eq!(blocks.len(), 1);
    // a block that no later heading closed keeps an empty location
    assert!(blocks[0].location.is_empty());
    assert_eq!(blocks[0].code, "let x;\n");
}

#[test]
fn lexical_events_in_order() {
    let source = "Rust is (fun). See `docs` now\n";
    let events = simple_markdown_parser::lexical::lexical_events(source);
    assert_eq!(
        events,
        vec![
            LexicalEvent::Paragraph("Rust is (fun). See `docs` now"),
            LexicalEvent::Sentence("Rust is (fun)"),
            LexicalEvent::Sentence(" See `docs` now"),
            LexicalEvent::Word("Rust"),
            LexicalEvent::Word("is"),
            LexicalEvent::Word("fun"),
            LexicalEvent::Word("See"),
            LexicalEvent::Word("docs"),
            LexicalEvent::Word("now"),
        ]
    );
}

struct Collector {
    words: Vec<String>,
    sentences: usize,
    paragraphs: usize,
}

impl simple_markdown_parser::LexicalAnalyser for Collector {
    fn word(&mut self, word: &str) {
        self.words.push(word.to_string());
    }

    fn sentence(&mut self, _sentence: &str) {
        self.sentences += 1;
    }

    fn paragraph(&mut self, _paragraph: &str) {
        self.paragraphs += 1;
    }
}

#[test]
fn lexical_analysis_drives_the_analyser() {
    let mut collector = Collector {
        words: Vec::new(),
        sentences: 0,
        paragraphs: 0,
    };
    simple_markdown_parser::lexical_analysis("# Title here\n\nA body.\n", &mut collector);
    assert_eq!(
        collector.words,
        vec![
            "Title".to_string(),
            "here".to_string(),
            "A".to_string(),
            "body".to_string(),
        ]
    );
    assert_eq!(collector.sentences, 3);
    assert_eq!(collector.paragraphs, 1);
}

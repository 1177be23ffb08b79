//! Mathematical models of the parsed values.  Every text payload is a
//! `Seq<char>`; the executable element types of [`crate::elements`] map onto
//! these models through their views.

use vstd::prelude::*;

verus! {

/// Model of a block element.
pub enum ElemModel {
    Heading { level: u8, text: Seq<char> },
    Quote { text: Seq<char> },
    Paragraph { text: Seq<char> },
    ListItem { level: u8, text: Seq<char> },
    Table { region: Seq<char> },
    CodeBlock { language: Seq<char>, code: Seq<char> },
    LaTeXBlock { script: Seq<char> },
    CommandBlock { name: Seq<char>, arguments: Seq<char>, inner: Seq<char> },
    CommentBlock { text: Seq<char> },
    HTMLElement { text: Seq<char> },
    Frontmatter { text: Seq<char> },
    HorizontalRule,
    Footnote,
    Empty,
}

/// Model of a decorated inline span.
pub enum TextElemModel {
    Plain { text: Seq<char> },
    Italic { text: Seq<char> },
    Bold { text: Seq<char> },
    BoldAndItalic { text: Seq<char> },
    Code { text: Seq<char> },
    StrikeThrough { text: Seq<char> },
    Emoji { text: Seq<char> },
    Latex { text: Seq<char> },
    Expression { text: Seq<char> },
    Highlight { text: Seq<char> },
    Superscript { text: Seq<char> },
    Subscript { text: Seq<char> },
    Tag { text: Seq<char> },
    Link { on: Seq<char>, to: Seq<char> },
    Media { alt: Seq<char>, source: Seq<char> },
}

} // verus!

//! The public element types.  Each borrows its text from the source buffer
//! that was parsed and views onto the models of [`crate::model`].

use vstd::prelude::*;
use vstd::string::StrSliceExecFns;
use vstd::string::StringExecFns;

use crate::model::{ElemModel, TextElemModel};

verus! {

/// `n` copies of `p`, concatenated.
pub open spec fn repeat_seq(p: Seq<char>, n: int) -> Seq<char>
    decreases n,
{
    if n <= 0 {
        Seq::empty()
    } else {
        repeat_seq(p, n - 1) + p
    }
}

/// The markdown rendering of a block element, as [`MarkdownElement::as_markdown`]
/// rebuilds it.
pub open spec fn as_markdown_spec(e: ElemModel) -> Seq<char> {
    match e {
        ElemModel::Heading { level, text } => repeat_seq("#"@, level as int) + text + " "@,
        ElemModel::ListItem { level, text } => repeat_seq("\t"@, level as int) + "- "@
            + text,
        ElemModel::CodeBlock { language, code } => "```"@ + language + "\n"@ + code
            + "```"@,
        ElemModel::Paragraph { text } => text,
        ElemModel::Quote { text } => "> "@ + text,
        ElemModel::Table { region } => region,
        ElemModel::LaTeXBlock { script } => "$$\n"@ + script + "\n$$"@,
        ElemModel::CommandBlock { name, arguments, inner } => "{% "@ + name + " "@
            + arguments + " %}\n"@ + inner + "{% /"@ + name + " %}"@,
        ElemModel::CommentBlock { text } => "%% "@ + text + " %%"@,
        ElemModel::HTMLElement { text } => text,
        ElemModel::Frontmatter { text } => "---\n"@ + text + "---"@,
        ElemModel::HorizontalRule => "---"@,
        ElemModel::Footnote => Seq::empty(),
        ElemModel::Empty => Seq::empty(),
    }
}

/// The decimal digit character of `d`.
pub open spec fn dec_digit(d: u8) -> char {
    (((d % 10) + 48) as u8) as char
}

/// The decimal rendering of a byte-sized number.
pub open spec fn dec_u8(n: u8) -> Seq<char> {
    if n < 10 {
        seq![dec_digit(n)]
    } else if n < 100 {
        seq![dec_digit(n / 10), dec_digit(n % 10)]
    } else {
        seq![dec_digit(n / 100), dec_digit((n / 10) % 10), dec_digit(n % 10)]
    }
}

/// The variant label of a block element, with its level where one exists,
/// but never the carried text.
pub open spec fn debug_label(e: ElemModel) -> Seq<char> {
    match e {
        ElemModel::Heading { level, .. } => "Heading { level: "@ + dec_u8(level) + " }"@,
        ElemModel::Quote { .. } => "Quote"@,
        ElemModel::Paragraph { .. } => "Paragraph"@,
        ElemModel::ListItem { level, .. } => "ListItem { level: "@ + dec_u8(level) + " }"@,
        ElemModel::Table { .. } => "Table"@,
        ElemModel::CodeBlock { language, .. } => "CodeBlock ("@ + language + ")"@,
        ElemModel::LaTeXBlock { .. } => "LaTeXBlock { .. }"@,
        ElemModel::CommandBlock { .. } => "CommandBlock"@,
        ElemModel::CommentBlock { .. } => "CommentBlock"@,
        ElemModel::HTMLElement { .. } => "HTMLElement"@,
        ElemModel::Frontmatter { .. } => "Frontmatter"@,
        ElemModel::HorizontalRule => "HorizontalRule"@,
        ElemModel::Footnote => "Footnote"@,
        ElemModel::Empty => "Empty"@,
    }
}

/// Un-split text carried by a markdown block; its inline decoration can be
/// recovered through [`crate::PartsIterator`].
#[derive(Debug, Copy, Clone, PartialEq, Eq)]
pub struct RawText<'a>(pub &'a str);

impl<'a> View for RawText<'a> {
    type V = Seq<char>;

    open spec fn view(&self) -> Seq<char> {
        self.0@
    }
}

/// A region of the source that is itself markdown (a quote's body, a command
/// block's inner content) and can be handed back to [`crate::parse`].
#[derive(Debug, Copy, Clone, PartialEq, Eq)]
pub struct RawMarkdown<'a>(pub &'a str);

impl<'a> View for RawMarkdown<'a> {
    type V = Seq<char>;

    open spec fn view(&self) -> Seq<char> {
        self.0@
    }
}

/// A captured table region; rows and cells are split out lazily by
/// [`Table::rows`] and [`TableRow::cells`].
#[derive(Debug, Copy, Clone, PartialEq, Eq)]
pub struct Table<'a>(pub &'a str);

impl<'a> View for Table<'a> {
    type V = Seq<char>;

    open spec fn view(&self) -> Seq<char> {
        self.0@
    }
}

/// One row of a captured table region.
#[derive(Debug, Copy, Clone, PartialEq, Eq)]
pub struct TableRow<'a>(pub &'a str);

impl<'a> View for TableRow<'a> {
    type V = Seq<char>;

    open spec fn view(&self) -> Seq<char> {
        self.0@
    }
}

/// A `{% name arguments %} ... {% /name %}` region; the inner content is
/// markdown in its own right.
#[derive(Debug, Copy, Clone, PartialEq, Eq)]
pub struct CommandBlock<'a> {
    pub name: &'a str,
    pub arguments: &'a str,
    pub inner: RawMarkdown<'a>,
}

/// Markdown block element.
#[derive(Debug, Copy, Clone, PartialEq, Eq)]
pub enum MarkdownElement<'a> {
    Heading { level: u8, text: RawText<'a> },
    Quote(RawMarkdown<'a>),
    Paragraph(RawText<'a>),
    ListItem { level: u8, text: RawText<'a> },
    Table(Table<'a>),
    CodeBlock { language: &'a str, code: &'a str },
    LaTeXBlock { script: &'a str },
    CommandBlock(CommandBlock<'a>),
    /// The text between `%%` markers.
    CommentBlock(&'a str),
    HTMLElement(&'a str),
    Frontmatter(&'a str),
    HorizontalRule,
    Footnote,
    Empty,
}

impl<'a> View for MarkdownElement<'a> {
    type V = ElemModel;

    open spec fn view(&self) -> ElemModel {
        match self {
            MarkdownElement::Heading { level, text } => ElemModel::Heading {
                level: *level,
                text: text@,
            },
            MarkdownElement::Quote(text) => ElemModel::Quote { text: text@ },
            MarkdownElement::Paragraph(text) => ElemModel::Paragraph { text: text@ },
            MarkdownElement::ListItem { level, text } => ElemModel::ListItem {
                level: *level,
                text: text@,
            },
            MarkdownElement::Table(t) => ElemModel::Table { region: t@ },
            MarkdownElement::CodeBlock { language, code } => ElemModel::CodeBlock {
                language: language@,
                code: code@,
            },
            MarkdownElement::LaTeXBlock { script } => ElemModel::LaTeXBlock {
                script: script@,
            },
            MarkdownElement::CommandBlock(c) => ElemModel::CommandBlock {
                name: c.name@,
                arguments: c.arguments@,
                inner: c.inner@,
            },
            MarkdownElement::CommentBlock(text) => ElemModel::CommentBlock { text: text@ },
            MarkdownElement::HTMLElement(text) => ElemModel::HTMLElement { text: text@ },
            MarkdownElement::Frontmatter(text) => ElemModel::Frontmatter { text: text@ },
            MarkdownElement::HorizontalRule => ElemModel::HorizontalRule,
            MarkdownElement::Footnote => ElemModel::Footnote,
            MarkdownElement::Empty => ElemModel::Empty,
        }
    }
}

/// Appends `count` copies of `piece` to `s`.
fn push_n(s: &mut String, piece: &str, count: usize)
    ensures
        final(s)@ == old(s)@ + repeat_seq(piece@, count as int),
{
    let mut i: usize = 0;
    proof {
        assert(s@ + repeat_seq(piece@, 0) =~= s@);
    }
    while i < count
        invariant
            0 <= i <= count,
            s@ == old(s)@ + repeat_seq(piece@, i as int),
        decreases count - i,
    {
        s.append(piece);
        proof {
            assert(s@ =~= old(s)@ + repeat_seq(piece@, i + 1));
        }
        i = i + 1;
    }
}

/// The decimal digit character of `d`, which must be below ten.
fn digit_str(d: u8) -> (r: &'static str)
    requires
        d < 10,
    ensures
        r@ == seq![dec_digit(d)],
{
    proof {
        reveal_strlit("0");
        reveal_strlit("1");
        reveal_strlit("2");
        reveal_strlit("3");
        reveal_strlit("4");
        reveal_strlit("5");
        reveal_strlit("6");
        reveal_strlit("7");
        reveal_strlit("8");
        reveal_strlit("9");
    }
    match d {
        0 => {
            proof {
                assert("0"@ =~= seq![dec_digit(0)]);
            }
            "0"
        },
        1 => {
            proof {
                assert("1"@ =~= seq![dec_digit(1)]);
            }
            "1"
        },
        2 => {
            proof {
                assert("2"@ =~= seq![dec_digit(2)]);
            }
            "2"
        },
        3 => {
            proof {
                assert("3"@ =~= seq![dec_digit(3)]);
            }
            "3"
        },
        4 => {
            proof {
                assert("4"@ =~= seq![dec_digit(4)]);
            }
            "4"
        },
        5 => {
            proof {
                assert("5"@ =~= seq![dec_digit(5)]);
            }
            "5"
        },
        6 => {
            proof {
                assert("6"@ =~= seq![dec_digit(6)]);
            }
            "6"
        },
        7 => {
            proof {
                assert("7"@ =~= seq![dec_digit(7)]);
            }
            "7"
        },
        8 => {
            proof {
                assert("8"@ =~= seq![dec_digit(8)]);
            }
            "8"
        },
        _ => {
            proof {
                assert("9"@ =~= seq![dec_digit(9)]);
            }
            "9"
        },
    }
}

/// Appends the decimal rendering of `n` to `s`.
fn push_u8(s: &mut String, n: u8)
    ensures
        final(s)@ == old(s)@ + dec_u8(n),
{
    if n < 10 {
        s.append(digit_str(n));
        proof {
            assert(s@ =~= old(s)@ + dec_u8(n));
        }
    } else if n < 100 {
        s.append(digit_str(n / 10));
        s.append(digit_str(n % 10));
        proof {
            assert(s@ =~= old(s)@ + dec_u8(n));
        }
    } else {
        s.append(digit_str(n / 100));
        s.append(digit_str((n / 10) % 10));
        s.append(digit_str(n % 10));
        proof {
            assert(s@ =~= old(s)@ + dec_u8(n));
        }
    }
}

impl<'a> MarkdownElement<'a> {
    /// A markdown rendering of this element.  Re-parsing the rendering of a
    /// heading, list item, paragraph, quote, terminated code block or empty
    /// element classifies back to the same variant.
    pub fn as_markdown(&self) -> (r: String)
        ensures
            r@ == as_markdown_spec(self@),
    {
        let mut s = String::new();
        match self {
            MarkdownElement::Heading { level, text } => {
                push_n(&mut s, "#", *level as usize);
                s.append(text.0);
                s.append(" ");
            },
            MarkdownElement::ListItem { level, text } => {
                push_n(&mut s, "\t", *level as usize);
                s.append("- ");
                s.append(text.0);
            },
            MarkdownElement::CodeBlock { language, code } => {
                s.append("```");
                s.append(language);
                s.append("\n");
                s.append(code);
                s.append("```");
            },
            MarkdownElement::Paragraph(text) => {
                s.append(text.0);
            },
            MarkdownElement::Quote(text) => {
                s.append("> ");
                s.append(text.0);
            },
            MarkdownElement::Table(t) => {
                s.append(t.0);
            },
            MarkdownElement::LaTeXBlock { script } => {
                s.append("$$\n");
                s.append(script);
                s.append("\n$$");
            },
            MarkdownElement::CommandBlock(c) => {
                s.append("{% ");
                s.append(c.name);
                s.append(" ");
                s.append(c.arguments);
                s.append(" %}\n");
                s.append(c.inner.0);
                s.append("{% /");
                s.append(c.name);
                s.append(" %}");
            },
            MarkdownElement::CommentBlock(text) => {
                s.append("%% ");
                s.append(text);
                s.append(" %%");
            },
            MarkdownElement::HTMLElement(text) => {
                s.append(text);
            },
            MarkdownElement::Frontmatter(text) => {
                s.append("---\n");
                s.append(text);
                s.append("---");
            },
            MarkdownElement::HorizontalRule => {
                s.append("---");
            },
            MarkdownElement::Footnote => {},
            MarkdownElement::Empty => {},
        }
        proof {
            assert(s@ =~= as_markdown_spec(self@));
        }
        s
    }

    /// The raw text of a paragraph-like element: a paragraph's text or a
    /// quote's body, nothing for any other variant.
    pub fn inner_paragraph_raw(&self) -> (r: Option<&'a str>)
        ensures
            match r {
                Some(t) => (self@ matches ElemModel::Paragraph { text } && text == t@)
                    || (self@ matches ElemModel::Quote { text } && text == t@),
                None => !(self@ is Paragraph) && !(self@ is Quote),
            },
    {
        match self {
            MarkdownElement::Paragraph(text) => Some(text.0),
            MarkdownElement::Quote(text) => Some(text.0),
            _ => None,
        }
    }

    /// The text of an element whose content can be split into inline parts:
    /// headings, paragraphs, list items and quotes.
    pub fn parts_like(&self) -> (r: Option<RawText<'a>>)
        ensures
            match r {
                Some(t) => (self@ matches ElemModel::Heading { text, .. } && text == t@)
                    || (self@ matches ElemModel::Paragraph { text } && text == t@)
                    || (self@ matches ElemModel::ListItem { text, .. } && text == t@)
                    || (self@ matches ElemModel::Quote { text } && text == t@),
                None => !(self@ is Heading) && !(self@ is Paragraph) && !(self@ is ListItem)
                    && !(self@ is Quote),
            },
    {
        match self {
            MarkdownElement::Heading { text, .. } => Some(*text),
            MarkdownElement::Paragraph(text) => Some(*text),
            MarkdownElement::ListItem { text, .. } => Some(*text),
            MarkdownElement::Quote(text) => Some(RawText(text.0)),
            _ => None,
        }
    }

    /// The variant's label, with its level where one exists, but never the
    /// carried text.
    pub fn debug_without_text(&self) -> (r: String)
        ensures
            r@ == debug_label(self@),
    {
        let mut s = String::new();
        match self {
            MarkdownElement::Heading { level, .. } => {
                s.append("Heading { level: ");
                push_u8(&mut s, *level);
                s.append(" }");
            },
            MarkdownElement::Quote(_) => {
                s.append("Quote");
            },
            MarkdownElement::Paragraph(_) => {
                s.append("Paragraph");
            },
            MarkdownElement::ListItem { level, .. } => {
                s.append("ListItem { level: ");
                push_u8(&mut s, *level);
                s.append(" }");
            },
            MarkdownElement::Table(_) => {
                s.append("Table");
            },
            MarkdownElement::CodeBlock { language, .. } => {
                s.append("CodeBlock (");
                s.append(language);
                s.append(")");
            },
            MarkdownElement::LaTeXBlock { .. } => {
                s.append("LaTeXBlock { .. }");
            },
            MarkdownElement::CommandBlock(_) => {
                s.append("CommandBlock");
            },
            MarkdownElement::CommentBlock(_) => {
                s.append("CommentBlock");
            },
            MarkdownElement::HTMLElement(_) => {
                s.append("HTMLElement");
            },
            MarkdownElement::Frontmatter(_) => {
                s.append("Frontmatter");
            },
            MarkdownElement::HorizontalRule => {
                s.append("HorizontalRule");
            },
            MarkdownElement::Footnote => {
                s.append("Footnote");
            },
            MarkdownElement::Empty => {
                s.append("Empty");
            },
        }
        proof {
            assert(s@ =~= debug_label(self@));
        }
        s
    }
}

/// Decorated inline span.  Some decorations are wrapped in paired markers,
/// some are prefixes.
#[derive(Debug, Copy, Clone, PartialEq, Eq)]
pub enum MarkdownTextElement<'a> {
    Plain(&'a str),
    /// `*hi*` or `_hi_`
    Italic(&'a str),
    /// `**hi**` or `__hi__`
    Bold(&'a str),
    /// `**_hi_**`
    BoldAndItalic(&'a str),
    /// `` `code` ``
    Code(&'a str),
    /// `~~gone~~`
    StrikeThrough(&'a str),
    /// `:emoji:`
    Emoji(&'a str),
    /// `$\sin$`
    Latex(&'a str),
    /// `{something}`
    Expression(&'a str),
    /// `==highlighted==`
    Highlight(&'a str),
    /// `^superscript^`
    Superscript(&'a str),
    /// `~subscript~`
    Subscript(&'a str),
    /// `#item`
    Tag(&'a str),
    /// `[on](to)`
    Link { on: RawText<'a>, to: &'a str },
    /// `![alt](source)`
    Media { alt: &'a str, source: &'a str },
}

impl<'a> View for MarkdownTextElement<'a> {
    type V = TextElemModel;

    open spec fn view(&self) -> TextElemModel {
        match self {
            MarkdownTextElement::Plain(t) => TextElemModel::Plain { text: t@ },
            MarkdownTextElement::Italic(t) => TextElemModel::Italic { text: t@ },
            MarkdownTextElement::Bold(t) => TextElemModel::Bold { text: t@ },
            MarkdownTextElement::BoldAndItalic(t) => TextElemModel::BoldAndItalic {
                text: t@,
            },
            MarkdownTextElement::Code(t) => TextElemModel::Code { text: t@ },
            MarkdownTextElement::StrikeThrough(t) => TextElemModel::StrikeThrough {
                text: t@,
            },
            MarkdownTextElement::Emoji(t) => TextElemModel::Emoji { text: t@ },
            MarkdownTextElement::Latex(t) => TextElemModel::Latex { text: t@ },
            MarkdownTextElement::Expression(t) => TextElemModel::Expression { text: t@ },
            MarkdownTextElement::Highlight(t) => TextElemModel::Highlight { text: t@ },
            MarkdownTextElement::Superscript(t) => TextElemModel::Superscript { text: t@ },
            MarkdownTextElement::Subscript(t) => TextElemModel::Subscript { text: t@ },
            MarkdownTextElement::Tag(t) => TextElemModel::Tag { text: t@ },
            MarkdownTextElement::Link { on, to } => TextElemModel::Link {
                on: on@,
                to: to@,
            },
            MarkdownTextElement::Media { alt, source } => TextElemModel::Media {
                alt: alt@,
                source: source@,
            },
        }
    }
}

/// What went wrong while parsing; every diagnostic is non-fatal and the
/// element stream is still delivered alongside it.
#[derive(Debug, Copy, Clone, PartialEq, Eq, Structural)]
pub enum ParseDiagnostic {
    /// A code fence was opened and never closed.
    UnterminatedCodeBlock,
    /// A `$$` block was opened and never closed.
    UnterminatedLatexBlock,
    /// A `{% name ... %}` block was opened and `{% /name %}` never seen.
    UnterminatedCommandBlock,
    /// A `%%` comment was opened and never closed.
    UnterminatedComment,
    /// An opening `---` at the start of the document was never closed.
    UnterminatedFrontmatter,
    /// A heading's `#` run is longer than the representable level width.
    DeepHeadingLevel,
    /// A list item's indentation run is longer than the representable width.
    DeepListLevel,
    /// A command argument string ends inside an open quote.
    MalformedCommandArgumentQuoting,
    /// A table region with no header line.
    EmptyTableRegion,
}

/// Options accepted by [`crate::parse_with_options`].
#[derive(Copy, Clone)]
pub struct ParseOptions {
    /// When set, blank lines produce [`MarkdownElement::Empty`] elements
    /// instead of being suppressed.
    pub include_new_lines: bool,
}

impl Default for ParseOptions {
    /// Blank lines are suppressed by default.
    fn default() -> (r: Self)
        ensures
            !r.include_new_lines,
    {
        ParseOptions { include_new_lines: false }
    }
}

} // verus!
